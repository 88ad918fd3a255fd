//! A seeded generator of binary-market order flow, and the tally of what each command did.
use vstd::prelude::*;

use std::collections::HashMap;

use crate::model::named_price;
use crate::types::{AccountId, Command, Envelope, Event, OrderId, OrderKind, Price, Qty, Side, Tif};

verus! {

broadcast use vstd::std_specs::hash::group_hash_axioms;

/// The xorshift step applied to the generator's state.
pub open spec fn xorshift(s: u64) -> u64 {
    let a = s ^ (s >> 12u64);
    let b = a ^ (a << 25u64);
    b ^ (b >> 27u64)
}

/// The multiplier that scrambles the state into an output.
pub const SCRAMBLE: u64 = 0x2545_F491_4F6C_DD1D;

/// The number the generator gives from state `s` (xorshift64*).
pub open spec fn rng_output(s: u64) -> u64 {
    xorshift(s).wrapping_mul(SCRAMBLE)
}

/// The state after `k` steps from `s`.
pub open spec fn state_after(s: u64, k: nat) -> u64
    decreases k,
{
    if k == 0 {
        s
    } else {
        xorshift(state_after(s, (k - 1) as nat))
    }
}

/// The `k`-th number (from 0) a generator in state `s` gives.
pub open spec fn draw(s: u64, k: nat) -> u64 {
    rng_output(state_after(s, k))
}

/// The trailing zero bits of `x`, at most 8.
pub open spec fn depth_of(x: u64) -> int {
    if (x.trailing_zeros() as u32) < 8 {
        x.trailing_zeros() as int
    } else {
        8
    }
}

proof fn lemma_xorshift_nonzero(s: u64)
    requires
        s != 0,
    ensures
        xorshift(s) != 0,
{
    assert(s != 0 ==> (s ^ (s >> 12u64)) ^ ((s ^ (s >> 12u64)) << 25u64) ^ (((s ^ (s >> 12u64))
        ^ ((s ^ (s >> 12u64)) << 25u64)) >> 27u64) != 0) by (bit_vector);
}

proof fn lemma_scramble_nonzero(x: u64)
    requires
        x != 0,
    ensures
        x.wrapping_mul(SCRAMBLE) != 0,
{
    assert(x != 0 ==> (x * 0x2545_F491_4F6C_DD1Du64) % 0x1_0000_0000_0000_0000 != 0) by (bit_vector);
}

/// A generator that starts from a nonzero state, as every one `Rng::new` makes does, never
/// reaches the zero state (where xorshift would stay for good) and never gives zero.
pub proof fn law_rng_never_zero(s: u64, k: nat)
    requires
        s != 0,
    ensures
        state_after(s, k) != 0,
        draw(s, k) != 0,
    decreases k,
{
    if k > 0 {
        law_rng_never_zero(s, (k - 1) as nat);
        lemma_xorshift_nonzero(state_after(s, (k - 1) as nat));
    }
    lemma_xorshift_nonzero(state_after(s, k));
    lemma_scramble_nonzero(xorshift(state_after(s, k)));
}

/// A small deterministic pseudo-random generator (xorshift64*).
pub struct Rng(u64);

impl Rng {
    /// The generator's state.
    pub closed spec fn state(&self) -> u64 {
        self.0
    }

    /// A generator seeded with `seed` (a zero seed becomes 1, since xorshift would stay at
    /// zero for good).
    pub fn new(seed: u64) -> (r: Rng)
        ensures
            r.state() == if seed == 0 {
                1
            } else {
                seed
            },
            r.state() != 0,
    {
        if seed == 0 {
            Rng(1)
        } else {
            Rng(seed)
        }
    }

    /// The next 64-bit output.
    pub fn next_u64(&mut self) -> (r: u64)
        ensures
            final(self).state() == xorshift(old(self).state()),
            r == rng_output(old(self).state()),
            old(self).state() != 0 ==> final(self).state() != 0 && r != 0,
    {
        proof {
            if self.0 != 0 {
                lemma_xorshift_nonzero(self.0);
                lemma_scramble_nonzero(xorshift(self.0));
            }
        }
        let s = self.0;
        let a = s ^ (s >> 12u64);
        let b = a ^ (a << 25u64);
        let c = b ^ (b >> 27u64);
        self.0 = c;
        c.wrapping_mul(SCRAMBLE)
    }

    /// An output reduced below `n`.
    pub fn below(&mut self, n: u64) -> (r: u64)
        requires
            n > 0,
        ensures
            final(self).state() == xorshift(old(self).state()),
            r == rng_output(old(self).state()) % n,
            r < n,
    {
        self.next_u64() % n
    }

    /// An output in `lo..=hi`.
    pub fn range(&mut self, lo: u64, hi: u64) -> (r: u64)
        requires
            lo <= hi,
            hi - lo < u64::MAX,
        ensures
            final(self).state() == xorshift(old(self).state()),
            r == lo + rng_output(old(self).state()) % ((hi - lo + 1) as u64),
            lo <= r <= hi,
    {
        lo + self.below(hi - lo + 1)
    }

    /// The number of trailing zero bits of an output, at most `max`: `k` with probability
    /// about 2^-(k+1).
    pub fn geometric(&mut self, max: u32) -> (r: u32)
        ensures
            final(self).state() == xorshift(old(self).state()),
            r == if (rng_output(old(self).state()).trailing_zeros() as u32) < max {
                rng_output(old(self).state()).trailing_zeros() as u32
            } else {
                max
            },
            r <= max,
    {
        let z = self.next_u64().trailing_zeros();
        if z < max {
            z
        } else {
            max
        }
    }
}

/// What a command did, for per-operation statistics.
#[derive(Clone, Copy, Debug, PartialEq, Eq, Hash, PartialOrd, Ord)]
pub enum Op {
    GtcRest,
    GtcMatch,
    Ioc,
    Market,
    PostOnlyRest,
    PostOnlyReject,
    Cancel,
    Reduce,
    Replace,
    OtherReject,
}

/// Some event is a trade.
pub open spec fn traded(events: Seq<Event>) -> bool {
    exists|i: int| 0 <= i < events.len() && #[trigger] events[i] is Trade
}

/// The operation a command and its events amount to.
pub open spec fn classify_spec(env: Envelope, events: Seq<Event>) -> Op {
    match env.cmd {
        Command::New { kind, .. } => match kind {
            OrderKind::PostOnly { .. } => if events.len() == 1 && events[0] is Rested {
                Op::PostOnlyRest
            } else {
                Op::PostOnlyReject
            },
            _ => if events.len() == 1 && events[0] is Rejected {
                Op::OtherReject
            } else {
                match kind {
                    OrderKind::Limit { tif: Tif::Gtc, .. } => if traded(events) {
                        Op::GtcMatch
                    } else {
                        Op::GtcRest
                    },
                    OrderKind::Limit { tif: Tif::Ioc, .. } => Op::Ioc,
                    _ => Op::Market,
                }
            },
        },
        Command::Cancel { .. } => Op::Cancel,
        Command::Reduce { .. } => Op::Reduce,
        Command::Replace { .. } => Op::Replace,
    }
}

impl Op {
    /// Every operation, in order.
    pub const ALL: [Op; 10] = [
        Op::GtcRest,
        Op::GtcMatch,
        Op::Ioc,
        Op::Market,
        Op::PostOnlyRest,
        Op::PostOnlyReject,
        Op::Cancel,
        Op::Reduce,
        Op::Replace,
        Op::OtherReject,
    ];

    /// The operation a command and its events amount to. A post-only order never trades.
    pub fn classify(env: &Envelope, events: &[Event]) -> (r: Op)
        requires
            env.cmd matches Command::New { kind: OrderKind::PostOnly { .. }, .. } ==> !traded(
                events@,
            ),
        ensures
            r == classify_spec(*env, events@),
    {
        let mut has_trade = false;
        let mut i: usize = 0;
        while i < events.len()
            invariant
                i <= events.len(),
                has_trade <==> exists|j: int| 0 <= j < i && #[trigger] events@[j] is Trade,
            decreases events.len() - i,
        {
            if let Event::Trade { .. } = events[i] {
                has_trade = true;
            }
            i = i + 1;
        }
        let lone_rested = events.len() == 1 && match events[0] {
            Event::Rested { .. } => true,
            _ => false,
        };
        let lone_rejected = events.len() == 1 && match events[0] {
            Event::Rejected { .. } => true,
            _ => false,
        };
        match env.cmd {
            Command::New { kind, .. } => match kind {
                OrderKind::PostOnly { .. } => if lone_rested {
                    Op::PostOnlyRest
                } else {
                    Op::PostOnlyReject
                },
                OrderKind::Limit { tif, .. } => if lone_rejected {
                    Op::OtherReject
                } else {
                    match tif {
                        Tif::Gtc => if has_trade {
                            Op::GtcMatch
                        } else {
                            Op::GtcRest
                        },
                        Tif::Ioc => Op::Ioc,
                    }
                },
                OrderKind::Market { .. } => if lone_rejected {
                    Op::OtherReject
                } else {
                    Op::Market
                },
            },
            Command::Cancel { .. } => Op::Cancel,
            Command::Reduce { .. } => Op::Reduce,
            Command::Replace { .. } => Op::Replace,
        }
    }
}

/// How a GTC limit order is labelled: once its events are more than a lone rejection, it
/// counts as a match exactly when one of its events is a trade, whether it then filled,
/// rested the rest, or was cancelled; otherwise it counts as resting.
pub proof fn law_gtc_label_follows_trades(env: Envelope, events: Seq<Event>)
    requires
        env.cmd matches Command::New { kind: OrderKind::Limit { tif: Tif::Gtc, .. }, .. },
        !(events.len() == 1 && events[0] is Rejected),
    ensures
        classify_spec(env, events) == Op::GtcMatch <==> exists|i: int|
            0 <= i < events.len() && #[trigger] events[i] is Trade,
        classify_spec(env, events) == Op::GtcRest <==> !exists|i: int|
            0 <= i < events.len() && #[trigger] events[i] is Trade,
{
}

/// The other labels: a lone rejection of a non-post-only new order is `OtherReject`; an
/// IOC limit or market order that got further is `Ioc` or `Market`; a post-only order is
/// `PostOnlyRest` exactly when its one event is that it rested, else `PostOnlyReject`; a
/// cancel, reduce or replace is labelled by its command, whatever its events.
pub proof fn law_labels_by_command(env: Envelope, events: Seq<Event>)
    ensures
        (env.cmd matches Command::New { kind: OrderKind::PostOnly { .. }, .. }) ==> (classify_spec(
            env,
            events,
        ) == Op::PostOnlyRest <==> events.len() == 1 && events[0] is Rested) && (classify_spec(
            env,
            events,
        ) == Op::PostOnlyRest || classify_spec(env, events) == Op::PostOnlyReject),
        env.cmd is New && !(env.cmd->New_kind is PostOnly) && events.len() == 1 && events[0] is Rejected
            ==> classify_spec(env, events) == Op::OtherReject,
        (env.cmd matches Command::New { kind: OrderKind::Limit { tif: Tif::Ioc, .. }, .. }) && !(
        events.len() == 1 && events[0] is Rejected) ==> classify_spec(env, events) == Op::Ioc,
        (env.cmd matches Command::New { kind: OrderKind::Market { .. }, .. }) && !(events.len() == 1
            && events[0] is Rejected) ==> classify_spec(env, events) == Op::Market,
        env.cmd is Cancel ==> classify_spec(env, events) == Op::Cancel,
        env.cmd is Reduce ==> classify_spec(env, events) == Op::Reduce,
        env.cmd is Replace ==> classify_spec(env, events) == Op::Replace,
{
}

/// Aggressive orders reach the best prices: when the generator makes a new order from its
/// second to fourth size buckets (an aggressive GTC limit, an IOC limit or a market order),
/// the price it names, if any, is for a buy the given best ask or up to two ticks above it,
/// and for a sell the given best bid or up to two ticks below it, within 1..=99.
pub proof fn law_aggressive_orders_reach_the_best(
    s: u64,
    list: Seq<KnownEntry>,
    req: u64,
    target: usize,
    accounts: u32,
    best_bid: Option<Price>,
    best_ask: Option<Price>,
)
    ensures
        ({
            let env = next_spec(s, list, req, target, accounts, best_bid, best_ask).0;
            let bid: int = match best_bid {
                Some(p) => p.0 as int,
                None => 49,
            };
            let ask: int = match best_ask {
                Some(p) => p.0 as int,
                None => 51,
            };
            let d2 = draw(s, 5) % 100;
            env.cmd is New && 55 <= d2 < 83 ==> (env.cmd matches Command::New { side, kind, .. } && (
            named_price(kind) matches Some(price) ==> (side == Side::Buy ==> clamp_spec(ask)
                <= price.0 <= clamp_spec(ask + 2)) && (side == Side::Sell ==> clamp_spec(bid - 2)
                <= price.0 <= clamp_spec(bid))) && (d2 < 70 ==> kind matches OrderKind::Limit {
                tif: Tif::Gtc,
                ..
            }) && (70 <= d2 < 78 ==> kind matches OrderKind::Limit { tif: Tif::Ioc, .. }) && (78
                <= d2 ==> kind is Market))
        }),
{
    reveal(next_spec);
}

/// Passive orders stay behind the best prices: when the generator makes a new order from
/// its first size bucket (a GTC limit order), a buy is priced below the given best ask (49
/// and 51 stand in for an empty side) and a sell above the given best bid, at most eight
/// ticks further out, all within 1..=99.
pub proof fn law_passive_orders_stay_behind_the_best(
    s: u64,
    list: Seq<KnownEntry>,
    req: u64,
    target: usize,
    accounts: u32,
    best_bid: Option<Price>,
    best_ask: Option<Price>,
)
    ensures
        ({
            let env = next_spec(s, list, req, target, accounts, best_bid, best_ask).0;
            let bid: int = match best_bid {
                Some(p) => p.0 as int,
                None => 49,
            };
            let ask: int = match best_ask {
                Some(p) => p.0 as int,
                None => 51,
            };
            env.cmd is New && draw(s, 5) % 100 < 55 ==> (env.cmd matches Command::New {
                side,
                kind: OrderKind::Limit { price, tif: Tif::Gtc },
                ..
            } && 1 <= price.0 <= 99 && (side == Side::Buy ==> (price.0 < ask || price.0 == 1)
                && clamp_spec(ask - 9) <= price.0 <= clamp_spec(ask - 1)) && (side == Side::Sell
                ==> (price.0 > bid || price.0 == 99) && clamp_spec(bid + 1) <= price.0
                <= clamp_spec(bid + 9)))
        }),
{
    reveal(next_spec);
    let x = draw(s, 3);
    assert(0 <= depth_of(x) <= 8);
}

/// An order the generator saw rest and has not seen leave.
#[derive(Clone, Copy)]
struct LiveOrder {
    id: OrderId,
    account: AccountId,
    side: Side,
    qty: u32,
}

/// What the generator remembers of a resting order: its owner, side and the lots it
/// rested with.
pub struct KnownOrder {
    pub account: u32,
    pub side: Side,
    pub qty: u32,
}

spec fn track(o: LiveOrder) -> KnownOrder {
    KnownOrder { account: o.account, side: o.side, qty: o.qty }
}

/// The side an order resting after `env` has: a new order's side, or the side of the
/// known order a replace names.
pub open spec fn rest_side(known: Map<u64, KnownOrder>, env: Envelope) -> Option<Side> {
    match env.cmd {
        Command::New { side, .. } => Some(side),
        Command::Replace { id, .. } => if known.contains_key(id.0) {
            Some(known[id.0].side)
        } else {
            None
        },
        _ => None,
    }
}

/// The known orders after taking in `events`: an order that rests is added, one that
/// is filled as a maker or cancelled is dropped.
pub open spec fn observe_spec(
    known: Map<u64, KnownOrder>,
    side: Option<Side>,
    account: u32,
    events: Seq<Event>,
) -> Map<u64, KnownOrder>
    decreases events.len(),
{
    if events.len() == 0 {
        known
    } else {
        let before = observe_spec(known, side, account, events.drop_last());
        match events.last() {
            Event::Rested { id, qty, .. } => before.insert(
                id.0,
                KnownOrder { account, side: side->0, qty: qty.0 },
            ),
            Event::MakerFilled { id } => before.remove(id.0),
            Event::Cancelled { id: Some(id), .. } => before.remove(id.0),
            _ => before,
        }
    }
}

/// The list without the entry for `id`, as a swap-remove takes it out: the last entry moves
/// into its place. Unchanged when no entry has that identifier.
pub open spec fn forget_list(list: Seq<KnownEntry>, id: u64) -> Seq<KnownEntry> {
    if exists|i: int| 0 <= i < list.len() && #[trigger] list[i].id == id {
        let i = choose|i: int| 0 <= i < list.len() && #[trigger] list[i].id == id;
        list.update(i, list.last()).drop_last()
    } else {
        list
    }
}

/// The known orders in drawing order after taking in `events`: an order that rests is added
/// at the end, one filled as a maker or cancelled is swap-removed.
pub open spec fn observe_list(
    list: Seq<KnownEntry>,
    side: Option<Side>,
    account: u32,
    events: Seq<Event>,
) -> Seq<KnownEntry>
    decreases events.len(),
{
    if events.len() == 0 {
        list
    } else {
        let before = observe_list(list, side, account, events.drop_last());
        match events.last() {
            Event::Rested { id, qty, .. } => match side {
                Some(sd) => before.push(
                    KnownEntry { id: id.0, order: KnownOrder { account, side: sd, qty: qty.0 } },
                ),
                None => before,
            },
            Event::MakerFilled { id } => forget_list(before, id.0),
            Event::Cancelled { id: Some(id), .. } => forget_list(before, id.0),
            _ => before,
        }
    }
}

/// Each order that rests has a known side and is not already known when it rests.
pub open spec fn observe_ok(
    known: Map<u64, KnownOrder>,
    side: Option<Side>,
    account: u32,
    events: Seq<Event>,
) -> bool {
    forall|i: int|
        0 <= i < events.len() && #[trigger] events[i] is Rested ==> side is Some
            && !observe_spec(known, side, account, events.take(i)).contains_key(
            events[i]->Rested_id.0,
        )
}

/// The known order `id` belongs to `account`.
pub open spec fn owned_by(known: Map<u64, KnownOrder>, id: OrderId, account: u32) -> bool {
    known.contains_key(id.0) && known[id.0].account == account
}

/// A new order the generator makes: 1 to 40 lots, every price it names within 1..=99.
pub open spec fn new_order_ok(qty: Qty, kind: OrderKind) -> bool {
    &&& 1 <= qty.0 <= 40
    &&& match kind {
        OrderKind::Limit { price, .. } => 1 <= price.0 <= 99,
        OrderKind::PostOnly { price } => 1 <= price.0 <= 99 && qty.0 <= 20,
        OrderKind::Market { protection } => protection matches Some(p) ==> 1 <= p.0 <= 99,
    }
}

/// The price `p` clamped into the binary-contract range 1..=99.
pub open spec fn clamp_spec(p: int) -> u16 {
    if p < 1 {
        1
    } else if p > 99 {
        99
    } else {
        p as u16
    }
}

fn clamp_tick(p: i64) -> (r: Price)
    ensures
        r.0 == clamp_spec(p as int),
{
    if p < 1 {
        Price(1)
    } else if p > 99 {
        Price(99)
    } else {
        Price(p as u16)
    }
}

/// A generator of order flow for a binary market: cancels, reduces and replaces of the
/// orders it has seen rest, and new orders placed around the best prices.
pub struct Workload {
    rng: Rng,
    live: Vec<LiveOrder>,
    index: HashMap<u64, usize>,
    req: u64,
    pub target_live: usize,
    pub accounts: u32,
}

/// A known order with its identifier, as the generator lists it.
pub struct KnownEntry {
    pub id: u64,
    pub order: KnownOrder,
}

/// The command `Workload::next` makes from generator state `s`, with the known orders
/// listed as `list`, and the generator state after it: the first draw picks the kind
/// (see `Workload::next`), the later draws pick the order, side, account, price offset
/// and size.
#[verifier::opaque]
pub open spec fn next_spec(
    s: u64,
    list: Seq<KnownEntry>,
    req: u64,
    target: usize,
    accounts: u32,
    best_bid: Option<Price>,
    best_ask: Option<Price>,
) -> (Envelope, u64) {
    let req1 = (req + 1) as u64;
    let bid: int = match best_bid {
        Some(p) => p.0 as int,
        None => 49,
    };
    let ask: int = match best_ask {
        Some(p) => p.0 as int,
        None => 51,
    };
    let n = list.len();
    let d = draw(s, 0) % 100;
    let at = |account: u32, cmd: Command| Envelope { req: req1, ts: (req1 * 10) as u64, account, cmd };
    if n > 0 && (d < 22 || (n > target && d < 60)) {
        let o = list[(draw(s, 1) % (n as u64)) as int];
        (at(o.order.account, Command::Cancel { id: OrderId(o.id) }), state_after(s, 2))
    } else if n > 0 && d < 27 {
        let o = list[(draw(s, 1) % (n as u64)) as int];
        let total = 1 + draw(s, 2) % (o.order.qty as u64);
        (
            at(o.order.account, Command::Reduce { id: OrderId(o.id), total_qty: Qty(total as u32) }),
            state_after(s, 3),
        )
    } else if n > 0 && d < 32 {
        let o = list[(draw(s, 1) % (n as u64)) as int];
        let depth = depth_of(draw(s, 2));
        let price = match o.order.side {
            Side::Buy => Price(clamp_spec(ask - 1 - depth)),
            Side::Sell => Price(clamp_spec(bid + 1 + depth)),
        };
        let total = 1 + draw(s, 3) % 20;
        let post_only = draw(s, 4) % 2 == 0;
        (
            at(
                o.order.account,
                Command::Replace {
                    id: OrderId(o.id),
                    price,
                    total_qty: Qty(total as u32),
                    post_only,
                },
            ),
            state_after(s, 5),
        )
    } else {
        let side = if draw(s, 1) % 2 == 0 {
            Side::Buy
        } else {
            Side::Sell
        };
        let account = (draw(s, 2) % (accounts as u64)) as u32;
        let depth = depth_of(draw(s, 3));
        let passive = match side {
            Side::Buy => Price(clamp_spec(ask - 1 - depth)),
            Side::Sell => Price(clamp_spec(bid + 1 + depth)),
        };
        let aggressive = match side {
            Side::Buy => Price(clamp_spec(ask + (draw(s, 4) % 3) as int)),
            Side::Sell => Price(clamp_spec(bid - (draw(s, 4) % 3) as int)),
        };
        let d2 = draw(s, 5) % 100;
        let new = |qty: int, kind: OrderKind| Command::New { side, qty: Qty(qty as u32), kind };
        if d2 < 55 {
            (
                at(account, new(1 + draw(s, 6) % 20, OrderKind::Limit { price: passive, tif: Tif::Gtc })),
                state_after(s, 7),
            )
        } else if d2 < 70 {
            (
                at(account, new(1 + draw(s, 6) % 40, OrderKind::Limit { price: aggressive, tif: Tif::Gtc })),
                state_after(s, 7),
            )
        } else if d2 < 78 {
            (
                at(account, new(1 + draw(s, 6) % 40, OrderKind::Limit { price: aggressive, tif: Tif::Ioc })),
                state_after(s, 7),
            )
        } else if d2 < 83 {
            let protection = if draw(s, 6) % 2 == 0 {
                Some(aggressive)
            } else {
                None
            };
            (
                at(account, new(1 + draw(s, 7) % 40, OrderKind::Market { protection })),
                state_after(s, 8),
            )
        } else {
            let price = if draw(s, 6) % 5 == 0 {
                aggressive
            } else {
                passive
            };
            (at(account, new(1 + draw(s, 7) % 20, OrderKind::PostOnly { price })), state_after(s, 8))
        }
    }
}

impl Workload {
    /// The known orders in the order the generator draws them from.
    pub closed spec fn known_list(&self) -> Seq<KnownEntry> {
        self.live@.map_values(|o: LiveOrder| KnownEntry { id: o.id.0, order: track(o) })
    }

    /// The orders the generator tracks, by identifier.
    pub closed spec fn known(&self) -> Map<u64, KnownOrder> {
        self.index@.map_values(|i: usize| track(self.live@[i as int]))
    }

    /// The last request number handed out.
    pub closed spec fn req_count(&self) -> u64 {
        self.req
    }

    /// The random generator's state.
    pub closed spec fn rng_state(&self) -> u64 {
        self.rng.state()
    }

    /// The number of resting orders the generator aims for.
    pub closed spec fn target(&self) -> usize {
        self.target_live
    }

    /// The number of accounts new orders come from.
    pub closed spec fn account_count(&self) -> u32 {
        self.accounts
    }

    /// The list of known orders and its index agree.
    pub closed spec fn wf(&self) -> bool {
        &&& forall|k: u64| #[trigger]
            self.index@.contains_key(k) ==> self.index@[k] < self.live@.len()
                && self.live@[self.index@[k] as int].id.0 == k
        &&& forall|i: int|
            0 <= i < self.live@.len() ==> self.index@.contains_key(#[trigger] self.live@[i].id.0)
                && self.index@[self.live@[i].id.0] == i
    }

    proof fn lemma_count(&self)
        requires
            self.wf(),
        ensures
            self.known().dom().finite(),
            self.known().dom().len() == self.live@.len(),
    {
        let ids = self.live@.map_values(|o: LiveOrder| o.id.0);
        assert(ids.no_duplicates()) by {
            assert forall|i: int, j: int| 0 <= i < ids.len() && 0 <= j < ids.len() && i != j implies ids[i] != ids[j] by {
                assert(self.index@[self.live@[i].id.0] == i);
                assert(self.index@[self.live@[j].id.0] == j);
            }
        }
        ids.unique_seq_to_set();
        assert(self.known().dom() =~= ids.to_set()) by {
            assert forall|k: u64| #[trigger] self.known().dom().contains(k) implies ids.to_set().contains(k) by {
                assert(ids[self.index@[k] as int] == k);
            }
            assert forall|k: u64| #[trigger] ids.to_set().contains(k) implies self.known().dom().contains(k) by {
                let i = choose|i: int| 0 <= i < ids.len() && ids[i] == k;
                assert(self.index@.contains_key(self.live@[i].id.0));
            }
        }
    }

    /// A generator with the given seed that aims to keep about `target_live` orders
    /// resting, over 64 accounts.
    pub fn new(seed: u64, target_live: usize) -> (r: Workload)
        ensures
            r.wf(),
            r.known() == Map::<u64, KnownOrder>::empty(),
            r.known_list() == Seq::<KnownEntry>::empty(),
            r.req_count() == 0,
            r.rng_state() == if seed == 0 {
                1
            } else {
                seed
            },
            r.target() == target_live,
            r.account_count() == 64,
    {
        let r = Workload {
            rng: Rng::new(seed),
            live: Vec::new(),
            index: HashMap::new(),
            req: 0,
            target_live,
            accounts: 64,
        };
        assert(r.known() =~= Map::<u64, KnownOrder>::empty());
        assert(r.known_list() =~= Seq::<KnownEntry>::empty());
        r
    }

    /// The number of known orders.
    pub fn live_orders(&self) -> (r: usize)
        requires
            self.wf(),
        ensures
            r == self.known().len(),
    {
        proof {
            self.lemma_count();
        }
        self.live.len()
    }

    /// Stops tracking `id`.
    fn forget(&mut self, id: OrderId)
        requires
            old(self).wf(),
        ensures
            final(self).wf(),
            final(self).known() == old(self).known().remove(id.0),
            final(self).known_list() == forget_list(old(self).known_list(), id.0),
            final(self).req == old(self).req,
            final(self).rng == old(self).rng,
            final(self).target_live == old(self).target_live,
            final(self).accounts == old(self).accounts,
    {
        let ghost t0 = self.known();
        let ghost l0 = self.live@;
        let ghost x0 = self.index@;
        let ghost list0 = self.known_list();
        match self.index.remove(&id.0) {
            Some(i) => {
                proof {
                    assert(list0[i as int].id == id.0);
                    assert forall|j: int| 0 <= j < list0.len() && #[trigger] list0[j].id == id.0 implies j == i by {
                        assert(x0[l0[j].id.0] == j);
                    }
                    assert(forget_list(list0, id.0) == list0.update(i as int, list0.last()).drop_last());
                }
                self.live.swap_remove(i);
                proof {
                    assert(self.known_list() =~= list0.update(i as int, list0.last()).drop_last());
                }
                if i < self.live.len() {
                    let moved = self.live[i];
                    self.index.insert(moved.id.0, i);
                    proof {
                        assert(moved == l0.last());
                        assert(x0[moved.id.0] == l0.len() - 1);
                    }
                }
                proof {
                    assert forall|k: u64| #[trigger]
                        self.index@.contains_key(k) implies self.index@[k] < self.live@.len()
                            && self.live@[self.index@[k] as int].id.0 == k by {
                        assert(x0.contains_key(k));
                        if k != l0.last().id.0 {
                            assert(x0[k] != l0.len() - 1);
                        }
                    }
                    assert forall|j: int| 0 <= j < self.live@.len() implies self.index@.contains_key(
                        #[trigger] self.live@[j].id.0,
                    ) && self.index@[self.live@[j].id.0] == j by {
                        if j != i {
                            assert(self.live@[j] == l0[j]);
                            assert(x0[l0[j].id.0] == j);
                        }
                    }
                    assert(self.known() =~= t0.remove(id.0)) by {
                        assert forall|k: u64| #[trigger] self.known().contains_key(k) implies t0.remove(id.0).contains_key(k)
                            && self.known()[k] == t0.remove(id.0)[k] by {
                            assert(x0.contains_key(k));
                            let j = self.index@[k] as int;
                            assert(self.live@[j].id.0 == k);
                            assert(x0[k] < l0.len());
                            assert(l0[x0[k] as int].id.0 == k);
                            if j == i {
                                assert(self.live@[j] == l0.last());
                                assert(x0[l0.last().id.0] == l0.len() - 1);
                            } else {
                                assert(self.live@[j] == l0[j]);
                                assert(x0[l0[j].id.0] == j);
                            }
                        }
                        assert forall|k: u64| #[trigger] t0.remove(id.0).contains_key(k) implies self.known().contains_key(k) by {
                            let j = x0[k] as int;
                            if j == l0.len() - 1 {
                                assert(i < self.live@.len());
                            } else {
                                assert(self.live@[j] == l0[j]);
                            }
                        }
                    }
                }
            },
            None => {
                proof {
                    assert(self.known() =~= t0.remove(id.0));
                    assert forall|j: int| 0 <= j < list0.len() implies #[trigger] list0[j].id != id.0 by {
                        assert(x0.contains_key(l0[j].id.0));
                    }
                }
            },
        }
    }

    /// Takes in the events a command caused: orders that rest are tracked, orders filled
    /// as makers or cancelled are dropped.
    pub fn observe(&mut self, env: &Envelope, events: &[Event])
        requires
            old(self).wf(),
            observe_ok(
                old(self).known(),
                rest_side(old(self).known(), *env),
                env.account,
                events@,
            ),
        ensures
            final(self).wf(),
            final(self).known() == observe_spec(
                old(self).known(),
                rest_side(old(self).known(), *env),
                env.account,
                events@,
            ),
            final(self).known_list() == observe_list(
                old(self).known_list(),
                rest_side(old(self).known(), *env),
                env.account,
                events@,
            ),
            final(self).req_count() == old(self).req_count(),
            final(self).rng_state() == old(self).rng_state(),
            final(self).target() == old(self).target(),
            final(self).account_count() == old(self).account_count(),
    {
        let ghost k0 = self.known();
        let side = match env.cmd {
            Command::New { side, .. } => Some(side),
            Command::Replace { id, .. } => match self.index.get(&id.0) {
                Some(i) => Some(self.live[*i].side),
                None => None,
            },
            _ => None,
        };
        let mut j: usize = 0;
        proof {
            assert(events@.take(0) =~= Seq::<Event>::empty());
        }
        while j < events.len()
            invariant
                self.wf(),
                side == rest_side(k0, *env),
                observe_ok(k0, side, env.account, events@),
                j <= events.len(),
                self.known() == observe_spec(k0, side, env.account, events@.take(j as int)),
                self.known_list() == observe_list(
                    old(self).known_list(),
                    side,
                    env.account,
                    events@.take(j as int),
                ),
                self.req == old(self).req,
                self.rng == old(self).rng,
                self.target_live == old(self).target_live,
                self.accounts == old(self).accounts,
            decreases events.len() - j,
        {
            let ghost before = self.known();
            proof {
                assert(events@.take(j + 1).drop_last() =~= events@.take(j as int));
                assert(events@.take(j + 1).last() == events@[j as int]);
            }
            match events[j] {
                Event::Rested { id, qty, .. } => {
                    let sd = match side {
                        Some(sd) => sd,
                        None => {
                            proof {
                                assert(events@[j as int] is Rested);
                            }
                            j = j + 1;
                            continue;
                        },
                    };
                    proof {
                        assert(events@[j as int] is Rested);
                        assert(!before.contains_key(id.0));
                    }
                    let o = LiveOrder { id, account: env.account, side: sd, qty: qty.0 };
                    let ghost l0 = self.live@;
                    let ghost x0 = self.index@;
                    self.index.insert(id.0, self.live.len());
                    self.live.push(o);
                    proof {
                        assert forall|k: u64| #[trigger]
                            self.index@.contains_key(k) implies self.index@[k] < self.live@.len()
                                && self.live@[self.index@[k] as int].id.0 == k by {
                            if k != id.0 {
                                assert(self.live@[x0[k] as int] == l0[x0[k] as int]);
                            }
                        }
                        assert forall|i: int| 0 <= i < self.live@.len() implies self.index@.contains_key(
                            #[trigger] self.live@[i].id.0,
                        ) && self.index@[self.live@[i].id.0] == i by {
                            if i < l0.len() {
                                assert(self.live@[i] == l0[i]);
                                assert(x0.contains_key(l0[i].id.0));
                                assert(l0[i].id.0 != id.0);
                            }
                        }
                        assert(self.known() =~= before.insert(
                            id.0,
                            KnownOrder { account: env.account, side: sd, qty: qty.0 },
                        )) by {
                            assert forall|k: u64| #[trigger] self.known().contains_key(k) && k != id.0 implies
                                self.known()[k] == before[k] by {
                                assert(self.live@[x0[k] as int] == l0[x0[k] as int]);
                            }
                        }
                    }
                },
                Event::MakerFilled { id } => {
                    self.forget(id);
                },
                Event::Cancelled { id: Some(id), .. } => {
                    self.forget(id);
                },
                _ => {},
            }
            j = j + 1;
        }
        proof {
            assert(events@.take(events@.len() as int) =~= events@);
        }
    }

    /// The request for the next command.
    fn envelope(&self, account: AccountId, cmd: Command) -> (r: Envelope)
        requires
            self.req <= u64::MAX / 10,
        ensures
            r == (Envelope { req: self.req, ts: (self.req * 10) as u64, account, cmd }),
    {
        Envelope { req: self.req, ts: self.req * 10, account, cmd }
    }

    /// A known order drawn at random.
    fn pick(&mut self) -> (o: LiveOrder)
        requires
            old(self).wf(),
            old(self).live@.len() > 0,
        ensures
            final(self).live == old(self).live,
            final(self).index == old(self).index,
            final(self).req == old(self).req,
            final(self).target_live == old(self).target_live,
            final(self).accounts == old(self).accounts,
            final(self).rng.state() == xorshift(old(self).rng.state()),
            o == old(self).live@[(rng_output(old(self).rng.state()) % (old(self).live@.len() as u64)) as int],
            old(self).known().contains_key(o.id.0),
            old(self).known()[o.id.0] == track(o),
    {
        let i = self.rng.below(self.live.len() as u64) as usize;
        let o = self.live[i];
        proof {
            assert(self.index@.contains_key(self.live@[i as int].id.0));
        }
        o
    }

    /// The next command. The first draw `d` (below 100) picks its kind: with known orders,
    /// a cancel when `d < 22` (or `d < 60` while more than the target rest), else a reduce
    /// when `d < 27`, else a replace when `d < 32`; otherwise a new order on a random side
    /// from a random account, priced around the best bid and ask given (49 and 51 when a
    /// side is empty).
    #[verifier::rlimit(40)]
    pub fn next(&mut self, best_bid: Option<Price>, best_ask: Option<Price>) -> (r: Envelope)
        requires
            old(self).wf(),
            old(self).account_count() > 0,
            old(self).req_count() < u64::MAX / 10,
            forall|k: u64| #[trigger]
                old(self).known().contains_key(k) ==> old(self).known()[k].qty >= 1,
        ensures
            final(self).wf(),
            final(self).known() == old(self).known(),
            final(self).known_list() == old(self).known_list(),
            final(self).req_count() == old(self).req_count() + 1,
            final(self).target() == old(self).target(),
            final(self).account_count() == old(self).account_count(),
            r.req == final(self).req_count(),
            r.ts == r.req * 10,
            (r, final(self).rng_state()) == next_spec(
                old(self).rng_state(),
                old(self).known_list(),
                old(self).req_count(),
                old(self).target(),
                old(self).account_count(),
                best_bid,
                best_ask,
            ),
            ({
                let d = rng_output(old(self).rng_state()) % 100;
                let n = old(self).known().len();
                let some = n > 0;
                let cancel = some && (d < 22 || (n > old(self).target() && d < 60));
                &&& cancel ==> (r.cmd matches Command::Cancel { id } && owned_by(
                    old(self).known(),
                    id,
                    r.account,
                ))
                &&& !cancel && some && d < 27 ==> (r.cmd matches Command::Reduce { id, total_qty }
                    && owned_by(old(self).known(), id, r.account) && 1 <= total_qty.0
                    <= old(self).known()[id.0].qty)
                &&& !cancel && some && 27 <= d < 32 ==> (r.cmd matches Command::Replace {
                    id,
                    price,
                    total_qty,
                    ..
                } && owned_by(old(self).known(), id, r.account) && 1 <= price.0 <= 99 && 1
                    <= total_qty.0 <= 20)
                &&& !cancel && (!some || d >= 32) ==> (r.cmd matches Command::New { qty, kind, .. }
                    && r.account < old(self).account_count() && new_order_ok(qty, kind))
            }),
    {
        proof {
            self.lemma_count();
            reveal(next_spec);
        }
        let ghost s0 = self.rng.state();
        let ghost list = self.known_list();
        let ghost n = self.live@.len();
        self.req = self.req + 1;
        let bid: i64 = match best_bid {
            Some(p) => p.0 as i64,
            None => 49,
        };
        let ask: i64 = match best_ask {
            Some(p) => p.0 as i64,
            None => 51,
        };
        proof {
            assert(state_after(s0, 0) == s0);
        }
        let r = self.rng.below(100);
        proof {
            assert(state_after(s0, 1) == self.rng.state());
        }
        let crowded = self.live.len() > self.target_live;
        if self.live.len() > 0 && (r < 22 || (crowded && r < 60)) {
            let o = self.pick();
            proof {
                assert(state_after(s0, 2) == self.rng.state());
                assert(list[(draw(s0, 1) % (n as u64)) as int] == KnownEntry { id: o.id.0, order: track(o) });
            }
            return self.envelope(o.account, Command::Cancel { id: o.id });
        }
        if self.live.len() > 0 && r < 27 {
            let o = self.pick();
            proof {
                assert(state_after(s0, 2) == self.rng.state());
                assert(list[(draw(s0, 1) % (n as u64)) as int] == KnownEntry { id: o.id.0, order: track(o) });
            }
            let total_qty = Qty(self.rng.range(1, o.qty as u64) as u32);
            proof {
                assert(state_after(s0, 3) == self.rng.state());
            }
            return self.envelope(o.account, Command::Reduce { id: o.id, total_qty });
        }
        if self.live.len() > 0 && r < 32 {
            let o = self.pick();
            proof {
                assert(state_after(s0, 2) == self.rng.state());
                assert(list[(draw(s0, 1) % (n as u64)) as int] == KnownEntry { id: o.id.0, order: track(o) });
            }
            let depth = self.rng.geometric(8) as i64;
            proof {
                assert(state_after(s0, 3) == self.rng.state());
            }
            let price = match o.side {
                Side::Buy => clamp_tick(ask - 1 - depth),
                Side::Sell => clamp_tick(bid + 1 + depth),
            };
            let total_qty = Qty(self.rng.range(1, 20) as u32);
            proof {
                assert(state_after(s0, 4) == self.rng.state());
            }
            let post_only = self.rng.below(2) == 0;
            proof {
                assert(state_after(s0, 5) == self.rng.state());
            }
            return self.envelope(
                o.account,
                Command::Replace { id: o.id, price, total_qty, post_only },
            );
        }
        let side = if self.rng.below(2) == 0 {
            Side::Buy
        } else {
            Side::Sell
        };
        proof {
            assert(state_after(s0, 2) == self.rng.state());
        }
        let account = self.rng.below(self.accounts as u64) as u32;
        proof {
            assert(state_after(s0, 3) == self.rng.state());
        }
        let depth = self.rng.geometric(8) as i64;
        proof {
            assert(state_after(s0, 4) == self.rng.state());
        }
        let passive = match side {
            Side::Buy => clamp_tick(ask - 1 - depth),
            Side::Sell => clamp_tick(bid + 1 + depth),
        };
        let aggressive = match side {
            Side::Buy => clamp_tick(ask + self.rng.below(3) as i64),
            Side::Sell => clamp_tick(bid - self.rng.below(3) as i64),
        };
        proof {
            assert(state_after(s0, 5) == self.rng.state());
        }
        let r2 = self.rng.below(100);
        proof {
            assert(state_after(s0, 6) == self.rng.state());
        }
        let (qty, kind) = if r2 < 55 {
            (self.rng.range(1, 20), OrderKind::Limit { price: passive, tif: Tif::Gtc })
        } else if r2 < 70 {
            (self.rng.range(1, 40), OrderKind::Limit { price: aggressive, tif: Tif::Gtc })
        } else if r2 < 78 {
            (self.rng.range(1, 40), OrderKind::Limit { price: aggressive, tif: Tif::Ioc })
        } else if r2 < 83 {
            let protection = if self.rng.below(2) == 0 {
                Some(aggressive)
            } else {
                None
            };
            proof {
                assert(state_after(s0, 7) == self.rng.state());
            }
            (self.rng.range(1, 40), OrderKind::Market { protection })
        } else {
            let price = if self.rng.below(5) == 0 {
                aggressive
            } else {
                passive
            };
            proof {
                assert(state_after(s0, 7) == self.rng.state());
            }
            (self.rng.range(1, 20), OrderKind::PostOnly { price })
        };
        proof {
            if r2 < 78 {
                assert(state_after(s0, 7) == self.rng.state());
            } else {
                assert(state_after(s0, 8) == self.rng.state());
            }
        }
        self.envelope(account, Command::New { side, qty: Qty(qty as u32), kind })
    }
}

} // verus!
