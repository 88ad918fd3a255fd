//! The baseline the benchmark compares against: the matching engine of
//! cb7chaitanya/matching-engine (1934d9e), one book per symbol with its price levels in
//! ordered maps of FIFO queues. Limit orders only; trades at the resting price.
use vstd::prelude::*;

use std::collections::BTreeMap;
use std::collections::VecDeque;
use vstd::std_specs::btree::{increasing_seq, spec_btree_map_iter};
use vstd::std_specs::iter::IteratorSpec;

verus! {

broadcast use vstd::std_specs::btree::group_btree_axioms, vstd::string::to_string_from_display_ensures_for_str,
    vstd::laws_cmp::group_laws_cmp;

/// The side of an order.
#[derive(Debug, Clone, Copy, PartialEq, Eq, Structural)]
pub enum Side {
    Buy,
    Sell,
}

/// An order: its symbol, side, limit price, size and what is still open.
#[derive(Debug)]
pub struct Order {
    pub id: u64,
    pub symbol: String,
    pub side: Side,
    pub price: u64,
    pub qty: u64,
    pub remaining_qty: u64,
    pub timestamp: u64,
}

impl Clone for Order {
    fn clone(&self) -> (r: Self)
        ensures
            r == *self,
    {
        Order {
            id: self.id,
            symbol: self.symbol.clone(),
            side: self.side,
            price: self.price,
            qty: self.qty,
            remaining_qty: self.remaining_qty,
            timestamp: self.timestamp,
        }
    }
}

/// One trade between a resting maker and an incoming taker, at the maker's price.
#[derive(Debug)]
pub struct Fill {
    pub maker_order_id: u64,
    pub taker_order_id: u64,
    pub symbol: String,
    pub price: u64,
    pub qty: u64,
    pub timestamp: u64,
}

/// A fill with its symbol as text.
pub struct FillView {
    pub maker_order_id: u64,
    pub taker_order_id: u64,
    pub symbol: Seq<char>,
    pub price: u64,
    pub qty: u64,
    pub timestamp: u64,
}

impl View for Fill {
    type V = FillView;

    open spec fn view(&self) -> FillView {
        FillView {
            maker_order_id: self.maker_order_id,
            taker_order_id: self.taker_order_id,
            symbol: self.symbol@,
            price: self.price,
            qty: self.qty,
            timestamp: self.timestamp,
        }
    }
}

/// The smaller of two sizes.
pub open spec fn min_u64(a: u64, b: u64) -> u64 {
    if a <= b {
        a
    } else {
        b
    }
}

/// A taker with `rem` lots left meets the queue `q` from its front: each maker fills
/// min(taker, maker) lots at its own price, a maker left with nothing leaves the queue,
/// and it stops when the taker is done or the queue is empty. Gives the queue after, the
/// fills, and the taker's lots left.
pub open spec fn fill_queue(q: Seq<Order>, rem: u64, taker: u64, symbol: Seq<char>, now: u64) -> (
    Seq<Order>,
    Seq<FillView>,
    u64,
)
    decreases q.len(),
{
    if rem == 0 || q.len() == 0 {
        (q, Seq::empty(), rem)
    } else {
        let m = q[0];
        let f = min_u64(rem, m.remaining_qty);
        let fill = FillView {
            maker_order_id: m.id,
            taker_order_id: taker,
            symbol,
            price: m.price,
            qty: f,
            timestamp: now,
        };
        if m.remaining_qty - f == 0 {
            let r = fill_queue(q.drop_first(), (rem - f) as u64, taker, symbol, now);
            (r.0, seq![fill] + r.1, r.2)
        } else {
            (
                q.update(0, Order { remaining_qty: (m.remaining_qty - f) as u64, ..m }),
                seq![fill],
                (rem - f) as u64,
            )
        }
    }
}

/// The taker meets the levels at `prices`, in that order, each from its front; a level
/// left empty is removed. Gives the levels after, the fills and the taker's lots left.
pub open spec fn fill_levels(
    book: Map<u64, Seq<Order>>,
    prices: Seq<u64>,
    rem: u64,
    taker: u64,
    symbol: Seq<char>,
    now: u64,
) -> (Map<u64, Seq<Order>>, Seq<FillView>, u64)
    decreases prices.len(),
{
    if prices.len() == 0 || rem == 0 {
        (book, Seq::empty(), rem)
    } else if !book.contains_key(prices[0]) {
        fill_levels(book, prices.drop_first(), rem, taker, symbol, now)
    } else {
        let r1 = fill_queue(book[prices[0]], rem, taker, symbol, now);
        let book2 = if r1.0.len() == 0 {
            book.remove(prices[0])
        } else {
            book.insert(prices[0], r1.0)
        };
        let r2 = fill_levels(book2, prices.drop_first(), r1.2, taker, symbol, now);
        (r2.0, r1.1 + r2.1, r2.2)
    }
}

/// The fills as plain values.
pub open spec fn fill_views(v: Seq<Fill>) -> Seq<FillView> {
    v.map_values(|f: Fill| f@)
}

/// Fills `taker` from the front of `queue`, stamping the fills `now`.
fn fill_from_queue(
    taker: &mut Order,
    symbol: &str,
    queue: &mut VecDeque<Order>,
    now: u64,
    fills: &mut Vec<Fill>,
)
    ensures
        ({
            let r = fill_queue(old(queue)@, old(taker).remaining_qty, old(taker).id, symbol@, now);
            &&& final(queue)@ == r.0
            &&& *final(taker) == Order { remaining_qty: r.2, ..*old(taker) }
            &&& fill_views(final(fills)@) == fill_views(old(fills)@) + r.1
        }),
{
    let ghost r0 = fill_queue(queue@, taker.remaining_qty, taker.id, symbol@, now);
    let ghost f0 = fill_views(fills@);
    while taker.remaining_qty > 0
        invariant
            *taker == (Order { remaining_qty: taker.remaining_qty, ..*old(taker) }),
            ({
                let r = fill_queue(queue@, taker.remaining_qty, taker.id, symbol@, now);
                &&& r.0 == r0.0
                &&& r.2 == r0.2
                &&& fill_views(fills@) + r.1 == f0 + r0.1
            }),
        ensures
            *taker == (Order { remaining_qty: taker.remaining_qty, ..*old(taker) }),
            queue@ == r0.0,
            taker.remaining_qty == r0.2,
            fill_views(fills@) == f0 + r0.1,
        decreases queue@.len(), taker.remaining_qty,
    {
        let ghost q = queue@;
        let ghost rem = taker.remaining_qty;
        let m = match queue.pop_front() {
            Some(m) => m,
            None => {
                proof {
                    assert(fill_views(fills@) + Seq::<FillView>::empty() == fill_views(fills@));
                }
                break;
            },
        };
        let f = if taker.remaining_qty <= m.remaining_qty {
            taker.remaining_qty
        } else {
            m.remaining_qty
        };
        taker.remaining_qty = taker.remaining_qty - f;
        let left = m.remaining_qty - f;
        let fill = Fill {
            maker_order_id: m.id,
            taker_order_id: taker.id,
            symbol: symbol.to_string(),
            price: m.price,
            qty: f,
            timestamp: now,
        };
        let ghost fv = fill@;
        let ghost before = fill_views(fills@);
        fills.push(fill);
        proof {
            assert(fill_views(fills@) == before.push(fv)) by {
                assert(fill_views(fills@) =~= before.push(fv));
            }
        }
        if left > 0 {
            queue.push_front(Order { remaining_qty: left, ..m });
            proof {
                assert(queue@ =~= q.update(0, Order { remaining_qty: left, ..m }));
                let r = fill_queue(queue@, taker.remaining_qty, taker.id, symbol@, now);
                assert(r.1 == Seq::<FillView>::empty());
                assert(before.push(fv) + r.1 =~= before + seq![fv]);
            }
        } else {
            proof {
                assert(queue@ =~= q.drop_first());
                let r = fill_queue(queue@, taker.remaining_qty, taker.id, symbol@, now);
                assert(before.push(fv) + r.1 =~= before + (seq![fv] + r.1));
            }
        }
    }
    proof {
        let r = fill_queue(queue@, taker.remaining_qty, taker.id, symbol@, now);
        assert(fill_views(fills@) + Seq::<FillView>::empty() =~= fill_views(fills@));
    }
}

/// Strictly ascending.
pub open spec fn ascending(s: Seq<u64>) -> bool {
    forall|i: int, j: int| 0 <= i < j < s.len() ==> s[i] < s[j]
}

/// The prices of `keys`, lowest first.
pub open spec fn in_order(keys: Set<u64>) -> Seq<u64> {
    choose|s: Seq<u64>| ascending(s) && s.to_set() == keys
}

/// The prices of `levels` at or below `limit` (`below`), or at or above it.
pub open spec fn prices_beyond_spec(levels: Map<u64, Seq<Order>>, limit: u64, below: bool) -> Set<
    u64,
> {
    levels.dom().filter(
        |p: u64|
            if below {
                p <= limit
            } else {
                p >= limit
            },
    )
}

/// The levels a buy order with `limit` may take from the asks: at or below the limit,
/// lowest first.
pub open spec fn asks_to_take(asks: Map<u64, Seq<Order>>, limit: u64) -> Seq<u64> {
    in_order(prices_beyond_spec(asks, limit, true))
}

/// The levels a sell order with `limit` may take from the bids: at or above the limit,
/// highest first.
pub open spec fn bids_to_take(bids: Map<u64, Seq<Order>>, limit: u64) -> Seq<u64> {
    in_order(prices_beyond_spec(bids, limit, false)).reverse()
}

/// The queues of a side, as sequences.
pub open spec fn levels_view(m: BTreeMap<u64, VecDeque<Order>>) -> Map<u64, Seq<Order>> {
    m@.map_values(|q: VecDeque<Order>| q@)
}

/// Two ascending sequences with the same elements are the same.
proof fn lemma_ascending_unique(a: Seq<u64>, b: Seq<u64>)
    requires
        ascending(a),
        ascending(b),
        a.to_set() == b.to_set(),
    ensures
        a == b,
    decreases a.len(),
{
    if a.len() == 0 {
        if b.len() > 0 {
            assert(b.to_set().contains(b[0]));
        }
        assert(a =~= b);
    } else {
        assert(a.to_set().contains(a[0]));
        assert(b.len() > 0);
        assert(b.to_set().contains(b[0]));
        let ia = choose|i: int| 0 <= i < a.len() && a[i] == b[0];
        let ib = choose|i: int| 0 <= i < b.len() && b[i] == a[0];
        assert(a[0] == b[0]) by {
            if ia > 0 {
                assert(a[0] < a[ia]);
            }
            if ib > 0 {
                assert(b[0] < b[ib]);
            }
        }
        let a1 = a.drop_first();
        let b1 = b.drop_first();
        assert(a1.to_set() =~= b1.to_set()) by {
            assert forall|x: u64| a1.to_set().contains(x) implies b1.to_set().contains(x) by {
                let i = choose|i: int| 0 <= i < a1.len() && a1[i] == x;
                assert(a[i + 1] == x);
                assert(a.to_set().contains(x));
                let j = choose|j: int| 0 <= j < b.len() && b[j] == x;
                assert(a[0] < a[i + 1]);
                if j == 0 {
                    assert(false);
                }
                assert(b1[j - 1] == x);
            }
            assert forall|x: u64| b1.to_set().contains(x) implies a1.to_set().contains(x) by {
                let i = choose|i: int| 0 <= i < b1.len() && b1[i] == x;
                assert(b[i + 1] == x);
                assert(b.to_set().contains(x));
                let j = choose|j: int| 0 <= j < a.len() && a[j] == x;
                assert(b[0] < b[i + 1]);
                if j == 0 {
                    assert(false);
                }
                assert(a1[j - 1] == x);
            }
        }
        lemma_ascending_unique(a1, b1);
        assert(a =~= b) by {
            assert forall|i: int| 0 <= i < a.len() implies a[i] == b[i] by {
                if i > 0 {
                    assert(a[i] == a1[i - 1]);
                    assert(b[i] == b1[i - 1]);
                }
            }
        }
    }
}

/// The keys an ordered map hands out in increasing order are strictly ascending numbers.
proof fn lemma_increasing_keys(ks: Seq<u64>)
    requires
        increasing_seq(ks),
    ensures
        ascending(ks),
{
    assert forall|i: int, j: int| 0 <= i < j < ks.len() implies ks[i] < ks[j] by {
        assert(vstd::std_specs::cmp::OrdSpec::cmp_spec(&ks[i], &ks[j]) is Less);
    }
}

/// The prices of `levels` on the right side of `limit` (at or below it when `below`, at
/// or above it otherwise), lowest first.
fn prices_beyond(levels: &BTreeMap<u64, VecDeque<Order>>, limit: u64, below: bool) -> (r: Vec<u64>)
    ensures
        r@ == in_order(prices_beyond_spec(levels_view(*levels), limit, below)),
{
    let ghost keys = prices_beyond_spec(levels_view(*levels), limit, below);
    let mut r: Vec<u64> = Vec::new();
    let ghost v = spec_btree_map_iter(levels).remaining();
    let ghost ks = v.map_values(|kv: (&u64, &VecDeque<Order>)| *kv.0);
    let ghost mut n: int = 0;
    for kv in it: levels.iter()
        invariant
            v == spec_btree_map_iter(levels).remaining(),
            ks == v.map_values(|kv: (&u64, &VecDeque<Order>)| *kv.0),
            it.seq() == v,
            n == it.index(),
            increasing_seq(ks),
            keys == prices_beyond_spec(levels_view(*levels), limit, below),
            ascending(r@),
            forall|x: u64|
                r@.contains(x) <==> exists|j: int|
                    0 <= j < n && #[trigger] ks[j] == x && keys.contains(x),
            forall|i: int| 0 <= i < r@.len() ==> exists|j: int| 0 <= j < n && ks[j] == #[trigger] r@[i],
    {
        let (k, _) = kv;
        proof {
            lemma_increasing_keys(ks);
            assert(ks[n] == *k);
            assert forall|i: int| 0 <= i < r@.len() implies r@[i] < *k by {
                let j = choose|j: int| 0 <= j < n && ks[j] == r@[i];
            }
            assert(levels@.contains_key(*k));
        }
        let take = if below {
            *k <= limit
        } else {
            *k >= limit
        };
        proof {
            assert(keys.contains(*k) == take);
        }
        if take {
            let ghost r0 = r@;
            r.push(*k);
            proof {
                assert forall|x: u64| r@.contains(x) <==> exists|j: int|
                    0 <= j < n + 1 && #[trigger] ks[j] == x && keys.contains(x) by {
                    if r@.contains(x) {
                        let i = choose|i: int| 0 <= i < r@.len() && r@[i] == x;
                        if i < r0.len() {
                            assert(r0.contains(x));
                        } else {
                            assert(ks[n] == x);
                        }
                    }
                    if exists|j: int| 0 <= j < n + 1 && #[trigger] ks[j] == x && keys.contains(x) {
                        let j = choose|j: int| 0 <= j < n + 1 && #[trigger] ks[j] == x && keys.contains(x);
                        if j < n {
                            assert(r0.contains(x));
                            let i = choose|i: int| 0 <= i < r0.len() && r0[i] == x;
                            assert(r@[i] == x);
                        } else {
                            assert(r@[r0.len() as int] == x);
                        }
                    }
                }
                assert forall|i: int| 0 <= i < r@.len() implies exists|j: int| 0 <= j < n + 1 && ks[j] == #[trigger] r@[i] by {
                    if i < r0.len() {
                        assert(r@[i] == r0[i]);
                    } else {
                        assert(ks[n] == r@[i]);
                    }
                }
            }
        } else {
            proof {
                assert forall|x: u64| r@.contains(x) <==> exists|j: int|
                    0 <= j < n + 1 && #[trigger] ks[j] == x && keys.contains(x) by {
                    if exists|j: int| 0 <= j < n + 1 && #[trigger] ks[j] == x && keys.contains(x) {
                        let j = choose|j: int| 0 <= j < n + 1 && #[trigger] ks[j] == x && keys.contains(x);
                        if j == n {
                            assert(!keys.contains(x));
                        }
                    }
                }
            }
        }
        proof {
            n = n + 1;
        }
    }
    proof {
        assert(n == v.len());
        assert(r@.to_set() =~= keys) by {
            assert forall|x: u64| keys.contains(x) implies r@.contains(x) by {
                assert(levels@.contains_key(x));
                assert(v.contains((&x, &levels@[x])));
                let j = choose|j: int| 0 <= j < v.len() && v[j] == (&x, &levels@[x]);
                assert(ks[j] == x);
            }
            assert forall|x: u64| r@.contains(x) implies keys.contains(x) by {
            }
        }
        let c = in_order(keys);
        assert(ascending(c) && c.to_set() == keys);
        lemma_ascending_unique(r@, c);
    }
    r
}

proof fn lemma_levels_remove(m: Map<u64, VecDeque<Order>>, k: u64)
    ensures
        m.remove(k).map_values(|q: VecDeque<Order>| q@) == m.map_values(|q: VecDeque<Order>| q@).remove(k),
{
    assert(m.remove(k).map_values(|q: VecDeque<Order>| q@) =~= m.map_values(|q: VecDeque<Order>| q@).remove(k));
}

proof fn lemma_levels_insert(m: Map<u64, VecDeque<Order>>, k: u64, q: VecDeque<Order>)
    ensures
        m.insert(k, q).map_values(|q: VecDeque<Order>| q@) == m.map_values(|q: VecDeque<Order>| q@).insert(k, q@),
{
    assert(m.insert(k, q).map_values(|q: VecDeque<Order>| q@) =~= m.map_values(|q: VecDeque<Order>| q@).insert(k, q@));
}

/// Fills `taker` from the levels at `prices`, in that order, stamping the fills `now`;
/// a level left empty is removed.
fn fill_from_levels(
    taker: &mut Order,
    symbol: &str,
    levels: &mut BTreeMap<u64, VecDeque<Order>>,
    prices: &Vec<u64>,
    now: u64,
    fills: &mut Vec<Fill>,
)
    ensures
        ({
            let r = fill_levels(
                levels_view(*old(levels)),
                prices@,
                old(taker).remaining_qty,
                old(taker).id,
                symbol@,
                now,
            );
            &&& levels_view(*final(levels)) == r.0
            &&& *final(taker) == Order { remaining_qty: r.2, ..*old(taker) }
            &&& fill_views(final(fills)@) == fill_views(old(fills)@) + r.1
        }),
{
    let ghost r0 = fill_levels(levels_view(*levels), prices@, taker.remaining_qty, taker.id, symbol@, now);
    let ghost f0 = fill_views(fills@);
    let mut i: usize = 0;
    proof {
        assert(prices@.skip(0) =~= prices@);
    }
    while i < prices.len()
        invariant
            i <= prices@.len(),
            *taker == (Order { remaining_qty: taker.remaining_qty, ..*old(taker) }),
            ({
                let r = fill_levels(
                    levels_view(*levels),
                    prices@.skip(i as int),
                    taker.remaining_qty,
                    taker.id,
                    symbol@,
                    now,
                );
                &&& r.0 == r0.0
                &&& r.2 == r0.2
                &&& fill_views(fills@) + r.1 == f0 + r0.1
            }),
        ensures
            *taker == (Order { remaining_qty: taker.remaining_qty, ..*old(taker) }),
            levels_view(*levels) == r0.0,
            taker.remaining_qty == r0.2,
            fill_views(fills@) == f0 + r0.1,
        decreases prices@.len() - i,
    {
        let ghost rest = prices@.skip(i as int);
        let ghost m0 = levels@;
        let ghost lv = levels_view(*levels);
        let ghost fv0 = fill_views(fills@);
        if taker.remaining_qty == 0 {
            proof {
                assert(fv0 + Seq::<FillView>::empty() =~= fv0);
            }
            break;
        }
        let price = prices[i];
        proof {
            assert(rest[0] == price);
            assert(rest.drop_first() =~= prices@.skip(i + 1));
            lemma_levels_remove(m0, price);
        }
        match levels.remove(&price) {
            None => {
                proof {
                    assert(lv.remove(price) =~= lv);
                }
            },
            Some(queue) => {
                let mut queue = queue;
                let ghost rem0 = taker.remaining_qty;
                proof {
                    assert(lv.contains_key(price) && lv[price] == queue@);
                }
                fill_from_queue(taker, symbol, &mut queue, now, fills);
                let ghost r1 = fill_queue(lv[price], rem0, taker.id, symbol@, now);
                if queue.len() > 0 {
                    proof {
                        lemma_levels_insert(levels@, price, queue);
                        assert(lv.remove(price).insert(price, queue@) =~= lv.insert(price, queue@));
                    }
                    levels.insert(price, queue);
                }
                proof {
                    let r2 = fill_levels(
                        levels_view(*levels),
                        prices@.skip(i + 1),
                        taker.remaining_qty,
                        taker.id,
                        symbol@,
                        now,
                    );
                    assert(fill_views(fills@) + r2.1 =~= fv0 + (r1.1 + r2.1));
                }
            },
        }
        i = i + 1;
    }
    proof {
        if i == prices@.len() {
            assert(prices@.skip(i as int) =~= Seq::<u64>::empty());
            assert(fill_views(fills@) + Seq::<FillView>::empty() =~= fill_views(fills@));
        }
    }
}

/// A side's levels with `o` queued last at its price.
pub open spec fn add_level(levels: Map<u64, Seq<Order>>, o: Order) -> Map<u64, Seq<Order>> {
    levels.insert(
        o.price,
        if levels.contains_key(o.price) {
            levels[o.price].push(o)
        } else {
            seq![o]
        },
    )
}

/// Matching `taker` against a book with `bids` and `asks`, fills stamped `now`: a buy takes
/// the asks at or below its price, lowest first, a sell the bids at or above its price,
/// highest first. Gives the bids and asks after, the fills, and the taker's lots left.
pub open spec fn match_result(
    bids: Map<u64, Seq<Order>>,
    asks: Map<u64, Seq<Order>>,
    taker: Order,
    symbol: Seq<char>,
    now: u64,
) -> (Map<u64, Seq<Order>>, Map<u64, Seq<Order>>, Seq<FillView>, u64) {
    match taker.side {
        Side::Buy => {
            let r = fill_levels(
                asks,
                asks_to_take(asks, taker.price),
                taker.remaining_qty,
                taker.id,
                symbol,
                now,
            );
            (bids, r.0, r.1, r.2)
        },
        Side::Sell => {
            let r = fill_levels(
                bids,
                bids_to_take(bids, taker.price),
                taker.remaining_qty,
                taker.id,
                symbol,
                now,
            );
            (r.0, asks, r.1, r.2)
        },
    }
}

/// std's `SystemTime` (the wall clock's readings), carried through opaquely.
#[verifier::external_type_specification]
#[verifier::external_body]
pub struct ExSystemTime(std::time::SystemTime);

/// std's `SystemTime::now`: the wall clock's reading now. Nothing is promised of it.
#[verifier::external_body]
fn clock_now() -> std::time::SystemTime {
    std::time::SystemTime::now()
}

/// std's `SystemTime::duration_since` from `UNIX_EPOCH`: the time since 1970, or `None`
/// where `t` reads before 1970. Nothing is promised of the duration.
#[verifier::external_body]
fn since_epoch(t: std::time::SystemTime) -> Option<std::time::Duration> {
    match t.duration_since(std::time::UNIX_EPOCH) {
        Ok(d) => Some(d),
        Err(_) => None,
    }
}

/// std's `Duration::as_millis`: the whole milliseconds in `d`. Nothing is promised of the
/// number, since the duration is opaque here.
#[verifier::external_body]
fn millis_of(d: std::time::Duration) -> u128 {
    d.as_millis()
}

/// The wall-clock time in milliseconds since the Unix epoch, truncated to its low 64 bits;
/// 0 where the clock reads before 1970.
fn now_millis() -> u64 {
    match since_epoch(clock_now()) {
        Some(d) => millis_of(d) as u64,
        None => 0,
    }
}

fn add_to_levels(levels: &mut BTreeMap<u64, VecDeque<Order>>, order: Order)
    ensures
        levels_view(*final(levels)) == add_level(levels_view(*old(levels)), order),
{
    let ghost lv = levels_view(*levels);
    let ghost o = order;
    let price = order.price;
    proof {
        lemma_levels_remove(levels@, price);
    }
    match levels.remove(&price) {
        Some(queue) => {
            let mut queue = queue;
            queue.push_back(order);
            proof {
                lemma_levels_insert(levels@, price, queue);
                assert(lv.remove(price).insert(price, queue@) =~= add_level(lv, o));
            }
            levels.insert(price, queue);
        },
        None => {
            let mut queue: VecDeque<Order> = VecDeque::new();
            queue.push_back(order);
            proof {
                lemma_levels_insert(levels@, price, queue);
                assert(queue@ =~= seq![o]);
                assert(lv.remove(price).insert(price, queue@) =~= add_level(lv, o));
            }
            levels.insert(price, queue);
        },
    }
}

/// One symbol's book: bids and asks by price, each level a FIFO queue.
pub struct OrderBook {
    pub symbol: String,
    pub bids: BTreeMap<u64, VecDeque<Order>>,
    pub asks: BTreeMap<u64, VecDeque<Order>>,
}

impl OrderBook {
    /// An empty book for `symbol`.
    pub fn new(symbol: String) -> (r: OrderBook)
        ensures
            r.symbol == symbol,
            levels_view(r.bids) == Map::<u64, Seq<Order>>::empty(),
            levels_view(r.asks) == Map::<u64, Seq<Order>>::empty(),
    {
        let r = OrderBook { symbol, bids: BTreeMap::new(), asks: BTreeMap::new() };
        assert(levels_view(r.bids) =~= Map::<u64, Seq<Order>>::empty());
        assert(levels_view(r.asks) =~= Map::<u64, Seq<Order>>::empty());
        r
    }

    /// Queues `order` last at its price on its side.
    pub fn add_order(&mut self, order: Order)
        ensures
            final(self).symbol == old(self).symbol,
            order.side == Side::Buy ==> levels_view(final(self).bids) == add_level(
                levels_view(old(self).bids),
                order,
            ) && final(self).asks == old(self).asks,
            order.side == Side::Sell ==> levels_view(final(self).asks) == add_level(
                levels_view(old(self).asks),
                order,
            ) && final(self).bids == old(self).bids,
    {
        match order.side {
            Side::Buy => add_to_levels(&mut self.bids, order),
            Side::Sell => add_to_levels(&mut self.asks, order),
        }
    }

    /// Matches `order` against the other side (see `match_result`), stamping the fills
    /// with the wall-clock time (0 where the clock reads before 1970); `order` is left with
    /// its unfilled lots.
    pub fn match_order(&mut self, order: &mut Order) -> (fills: Vec<Fill>)
        ensures
            final(self).symbol == old(self).symbol,
            exists|now: u64|
                {
                    let r = #[trigger] match_result(
                        levels_view(old(self).bids),
                        levels_view(old(self).asks),
                        *old(order),
                        old(self).symbol@,
                        now,
                    );
                    &&& levels_view(final(self).bids) == r.0
                    &&& levels_view(final(self).asks) == r.1
                    &&& fill_views(fills@) == r.2
                    &&& *final(order) == Order { remaining_qty: r.3, ..*old(order) }
                },
    {
        let mut fills: Vec<Fill> = Vec::new();
        let now = now_millis();
        proof {
            assert(fill_views(fills@) =~= Seq::<FillView>::empty());
        }
        match order.side {
            Side::Buy => {
                let prices = prices_beyond(&self.asks, order.price, true);
                fill_from_levels(order, self.symbol.as_str(), &mut self.asks, &prices, now, &mut fills);
            },
            Side::Sell => {
                let up = prices_beyond(&self.bids, order.price, false);
                let mut prices: Vec<u64> = Vec::new();
                let mut j = up.len();
                while j > 0
                    invariant
                        j <= up@.len(),
                        prices@ == up@.subrange(j as int, up@.len() as int).reverse(),
                    decreases j,
                {
                    j = j - 1;
                    prices.push(up[j]);
                    proof {
                        assert(prices@ =~= up@.subrange(j as int, up@.len() as int).reverse());
                    }
                }
                proof {
                    assert(up@.subrange(0, up@.len() as int) =~= up@);
                }
                fill_from_levels(order, self.symbol.as_str(), &mut self.bids, &prices, now, &mut fills);
            },
        }
        proof {
            let r = match_result(
                levels_view(old(self).bids),
                levels_view(old(self).asks),
                *old(order),
                old(self).symbol@,
                now,
            );
            assert(Seq::<FillView>::empty() + r.2 =~= r.2);
        }
        fills
    }
}

/// No two books share a symbol.
pub open spec fn symbols_distinct(books: Seq<OrderBook>) -> bool {
    forall|i: int, j: int|
        0 <= i < books.len() && 0 <= j < books.len() && i != j ==> books[i].symbol@
            != books[j].symbol@
}

/// The position of the book for `symbol`, if there is one.
pub open spec fn book_of(books: Seq<OrderBook>, symbol: Seq<char>) -> Option<int> {
    if exists|i: int| 0 <= i < books.len() && books[i].symbol@ == symbol {
        Some(choose|i: int| 0 <= i < books.len() && books[i].symbol@ == symbol)
    } else {
        None
    }
}

/// The bids of the book for `symbol` (none for a new book).
pub open spec fn start_bids(books: Seq<OrderBook>, symbol: Seq<char>) -> Map<u64, Seq<Order>> {
    match book_of(books, symbol) {
        Some(i) => levels_view(books[i].bids),
        None => Map::empty(),
    }
}

/// The asks of the book for `symbol` (none for a new book).
pub open spec fn start_asks(books: Seq<OrderBook>, symbol: Seq<char>) -> Map<u64, Seq<Order>> {
    match book_of(books, symbol) {
        Some(i) => levels_view(books[i].asks),
        None => Map::empty(),
    }
}

/// The books after `order` ran (see `process_order`), with `out` the order as it ended and
/// `fills` its fills.
pub open spec fn processed(
    before: Seq<OrderBook>,
    order: Order,
    after: Seq<OrderBook>,
    out: Order,
    fills: Seq<FillView>,
) -> bool {
    let found = book_of(before, order.symbol@);
    let at = match found {
        Some(i) => i,
        None => before.len() as int,
    };
    let bids = start_bids(before, order.symbol@);
    let asks = start_asks(before, order.symbol@);
    &&& after.len() == if found is Some {
        before.len()
    } else {
        before.len() + 1
    }
    &&& forall|j: int| 0 <= j < before.len() && j != at ==> #[trigger] after[j] == before[j]
    &&& after[at].symbol@ == order.symbol@
    &&& exists|now: u64|
        {
            let m = #[trigger] match_result(bids, asks, order, order.symbol@, now);
            let left = Order { remaining_qty: m.3, ..order };
            &&& out == left
            &&& fills == m.2
            &&& levels_view(after[at].bids) == if m.3 > 0 && order.side == Side::Buy {
                add_level(m.0, left)
            } else {
                m.0
            }
            &&& levels_view(after[at].asks) == if m.3 > 0 && order.side == Side::Sell {
                add_level(m.1, left)
            } else {
                m.1
            }
        }
}

/// Runs one order against the book of its symbol (a new, empty book when the symbol has
/// none): it matches (see `match_result`), then what is left of it rests. Gives the order
/// as it ended and its fills.
#[verifier::spinoff_prover]
pub fn process_order(books: &mut Vec<OrderBook>, order: Order) -> (r: (Order, Vec<Fill>))
    requires
        symbols_distinct(old(books)@),
    ensures
        symbols_distinct(final(books)@),
        processed(old(books)@, order, final(books)@, r.0, fill_views(r.1@)),
{
    let mut order = order;
    let mut i: usize = 0;
    let mut found = false;
    let ghost o0 = order;
    while i < books.len()
        invariant
            i <= books@.len(),
            books@ == old(books)@,
            order == o0,
            !found ==> forall|j: int| 0 <= j < i ==> books@[j].symbol@ != order.symbol@,
            found ==> i < books@.len() && books@[i as int].symbol@ == order.symbol@,
        ensures
            !found ==> i == books@.len() && forall|j: int|
                0 <= j < books@.len() ==> books@[j].symbol@ != order.symbol@,
            found ==> i < books@.len() && books@[i as int].symbol@ == order.symbol@,
        decreases books@.len() - i,
    {
        if books[i].symbol == order.symbol {
            found = true;
            break;
        }
        i = i + 1;
    }
    let ghost b0 = books@;
    proof {
        if found {
            let c = choose|j: int| 0 <= j < b0.len() && b0[j].symbol@ == order.symbol@;
            assert(c == i);
        }
    }
    if !found {
        books.push(OrderBook::new(order.symbol.clone()));
    }
    let ghost b1 = books@;
    let mut book = books.remove(i);
    let ghost start = book;
    let fills = book.match_order(&mut order);
    let ghost matched = book;
    let ghost om = order;
    if order.remaining_qty > 0 {
        book.add_order(order.clone());
    }
    books.insert(i, book);
    proof {
        assert(books@ =~= b1.update(i as int, book));
        assert(start == b1[i as int]);
        let now = choose|now: u64|
            {
                let r = #[trigger] match_result(
                    levels_view(start.bids),
                    levels_view(start.asks),
                    o0,
                    start.symbol@,
                    now,
                );
                &&& levels_view(matched.bids) == r.0
                &&& levels_view(matched.asks) == r.1
                &&& fill_views(fills@) == r.2
                &&& om == Order { remaining_qty: r.3, ..o0 }
            };
        let m = match_result(levels_view(start.bids), levels_view(start.asks), o0, o0.symbol@, now);
        assert(start.symbol@ == o0.symbol@);
        if found {
            assert(book_of(old(books)@, o0.symbol@) == Some(i as int));
        } else {
            assert(book_of(old(books)@, o0.symbol@) is None);
            assert(levels_view(start.bids) == Map::<u64, Seq<Order>>::empty());
            assert(levels_view(start.asks) == Map::<u64, Seq<Order>>::empty());
        }
        assert(levels_view(book.bids) == if m.3 > 0 && o0.side == Side::Buy {
            add_level(m.0, om)
        } else {
            m.0
        });
        assert(levels_view(book.asks) == if m.3 > 0 && o0.side == Side::Sell {
            add_level(m.1, om)
        } else {
            m.1
        });
        assert forall|a: int, b: int|
            0 <= a < books@.len() && 0 <= b < books@.len() && a != b implies books@[a].symbol@
            != books@[b].symbol@ by {
            if a != i && b != i {
                assert(books@[a] == b1[a]);
                assert(books@[b] == b1[b]);
            }
        }
        let bids0 = levels_view(start.bids);
        let asks0 = levels_view(start.asks);
        assert(start_bids(old(books)@, o0.symbol@) == bids0);
        assert(start_asks(old(books)@, o0.symbol@) == asks0);
        assert(match_result(
            start_bids(old(books)@, o0.symbol@),
            start_asks(old(books)@, o0.symbol@),
            o0,
            o0.symbol@,
            now,
        ) == m);
        assert(processed(old(books)@, o0, books@, order, fill_views(fills@)));
    }
    (order, fills)
}

} // verus!
