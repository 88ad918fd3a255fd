//! The fast engine: fixed slots, per-price levels holding intrusive FIFO lists, and an
//! occupancy bitset per side for the best price. Proved to follow `model::step`.
use vstd::prelude::*;

use crate::model::{
    ahead, best, best_price, better, book_inv, id_in, initial, is_best, lemma_best_is,
    lemma_initial_inv, lemma_match_loop, lemma_match_loop_unfold, lemma_remove_order_inv,
    lemma_rest_inv, lemma_step_inv, lemma_update_order_inv, lookup, marketable, match_loop, min_u32,
    remove_order, step, submit, take_slot, will_retire, BookView, MatchOutcome, OrderView,
};
use crate::types::{
    cfg_valid, id_of, limit_for, opposite_of, price_in_range, rests, rests_spec, AccountId,
    CancelReason, Command, Config, Engine, Envelope, Event, EventSink, OrderId, OrderKind, Price,
    Qty, RejectReason, Side, Tif,
};

verus! {

broadcast use vstd::std_specs::bits::axiom_u64_leading_zeros, vstd::std_specs::bits::axiom_u64_trailing_zeros;

/// The "no slot" link.
const NIL: u32 = 0xffff_ffff;

/// Prices the level arrays and bitsets cover: `0..MAX_TICKS`.
pub const MAX_TICKS: u16 = 128;

const BUY: u8 = 0;

const SELL: u8 = 1;

fn side_code(side: Side) -> (r: u8)
    ensures
        side_from(r) == side,
{
    match side {
        Side::Buy => BUY,
        Side::Sell => SELL,
    }
}

spec fn side_from(code: u8) -> Side {
    if code == BUY {
        Side::Buy
    } else {
        Side::Sell
    }
}

fn side_of(code: u8) -> (r: Side)
    ensures
        r == side_from(code),
{
    if code == BUY {
        Side::Buy
    } else {
        Side::Sell
    }
}

/// One order slot. A slot is live when its generation is odd; `prev`/`next` link it into
/// its price level; `seq` is its arrival number, kept for the proofs only.
#[derive(Clone, Copy)]
struct Slot {
    generation: u32,
    prev: u32,
    next: u32,
    remaining: u32,
    filled: u32,
    account: u32,
    price: u16,
    side: u8,
    seq: Ghost<nat>,
}

/// One price level: the ends of its FIFO list, the open lots in it, and (for the proofs)
/// the list itself.
#[derive(Clone, Copy)]
struct Level {
    head: u32,
    tail: u32,
    total: u64,
    queue: Ghost<Seq<u32>>,
}

/// One side of the book: a level per price and a bit per non-empty level.
struct BookSide {
    levels: Vec<Level>,
    bits: [u64; 2],
}

spec fn live(sl: Slot) -> bool {
    sl.generation % 2 == 1
}

spec fn bit_at(w: u64, k: int) -> bool {
    (w >> (k as u64)) & 1u64 == 1u64
}

/// The occupancy bit of price `p`.
spec fn bit(bs: BookSide, p: int) -> bool {
    bit_at(bs.bits@[p / 64], p % 64)
}

/// The open lots of the orders in `q`.
spec fn sum_rem(slots: Seq<Slot>, q: Seq<u32>) -> int
    decreases q.len(),
{
    if q.len() == 0 {
        0
    } else {
        sum_rem(slots, q.drop_last()) + slots[q.last() as int].remaining
    }
}

/// Position `i` of `q`: a live order of `side` at `p`, linked to its neighbours in `q`.
#[verifier::opaque]
spec fn entry_ok(q: Seq<u32>, slots: Seq<Slot>, side: Side, p: int, i: int) -> bool {
    let sl = slots[q[i] as int];
    &&& q[i] < slots.len()
    &&& q[i] != NIL
    &&& live(sl)
    &&& side_from(sl.side) == side
    &&& sl.price == p
    &&& sl.prev == (if i == 0 {
        NIL
    } else {
        q[i - 1]
    })
    &&& sl.next == (if i + 1 == q.len() {
        NIL
    } else {
        q[i + 1]
    })
}

/// `q` is a well-linked list of distinct live orders of `side` at price `p`, oldest first.
spec fn queue_ok(q: Seq<u32>, slots: Seq<Slot>, side: Side, p: int) -> bool {
    &&& q.no_duplicates()
    &&& forall|i: int| 0 <= i < q.len() ==> #[trigger] entry_ok(q, slots, side, p, i)
    &&& forall|i: int, j: int|
        #![trigger q[i], q[j]]
        0 <= i < j < q.len() ==> slots[q[i] as int].seq@ < slots[q[j] as int].seq@
}

/// The level at price `p` of `bs` holds a well-linked queue whose ends, total and
/// occupancy bit agree with it.
spec fn level_ok(bs: BookSide, slots: Seq<Slot>, side: Side, p: int) -> bool {
    let lv = bs.levels@[p];
    let q = lv.queue@;
    &&& queue_ok(q, slots, side, p)
    &&& (q.len() == 0 <==> lv.head == NIL)
    &&& (q.len() == 0 ==> lv.tail == NIL)
    &&& (q.len() > 0 ==> lv.head == q[0] && lv.tail == q.last())
    &&& lv.total == sum_rem(slots, q)
    &&& bit(bs, p) == (q.len() > 0)
}

proof fn lemma_or_bit(w: u64, k: u64, j: u64)
    requires
        k < 64,
        j < 64,
    ensures
        bit_at(w | (1u64 << k), j as int) == (j == k || bit_at(w, j as int)),
{
    assert(((w | (1u64 << k)) >> j) & 1u64 == 1u64 <==> (j == k || (w >> j) & 1u64 == 1u64))
        by (bit_vector)
        requires
            k < 64,
            j < 64,
    ;
}

proof fn lemma_clear_bit(w: u64, k: u64, j: u64)
    requires
        k < 64,
        j < 64,
    ensures
        bit_at(w & !(1u64 << k), j as int) == (j != k && bit_at(w, j as int)),
{
    assert(((w & !(1u64 << k)) >> j) & 1u64 == 1u64 <==> (j != k && (w >> j) & 1u64 == 1u64))
        by (bit_vector)
        requires
            k < 64,
            j < 64,
    ;
}

proof fn lemma_zero_word(j: u64)
    requires
        j < 64,
    ensures
        !bit_at(0u64, j as int),
{
    assert((0u64 >> j) & 1u64 == 0u64) by (bit_vector);
}

impl BookSide {
    fn new() -> (r: BookSide)
        ensures
            r.levels@.len() == MAX_TICKS,
            forall|p: int|
                #![trigger r.levels@[p]]
                0 <= p < MAX_TICKS ==> r.levels@[p].head == NIL && r.levels@[p].tail == NIL
                    && r.levels@[p].total == 0 && r.levels@[p].queue@ == Seq::<u32>::empty(),
            forall|p: int| 0 <= p < MAX_TICKS ==> !#[trigger] bit(r, p),
    {
        let mut levels: Vec<Level> = Vec::new();
        let mut i: u16 = 0;
        while i < MAX_TICKS
            invariant
                i <= MAX_TICKS,
                levels@.len() == i,
                forall|p: int|
                    #![trigger levels@[p]]
                    0 <= p < i ==> levels@[p].head == NIL && levels@[p].tail == NIL
                        && levels@[p].total == 0 && levels@[p].queue@ == Seq::<u32>::empty(),
            decreases MAX_TICKS - i,
        {
            levels.push(Level { head: NIL, tail: NIL, total: 0, queue: Ghost(Seq::empty()) });
            i = i + 1;
        }
        let r = BookSide { levels, bits: [0u64, 0u64] };
        proof {
            assert forall|p: int| 0 <= p < MAX_TICKS implies !#[trigger] bit(r, p) by {
                lemma_zero_word((p % 64) as u64);
            }
        }
        r
    }

    /// Marks price `p` occupied.
    fn set(&mut self, p: u16)
        requires
            p < MAX_TICKS,
        ensures
            final(self).levels == old(self).levels,
            forall|q: int| 0 <= q < MAX_TICKS ==> #[trigger] bit(*final(self), q) == (q == p || bit(*old(self), q)),
    {
        let w = (p / 64) as usize;
        let k = (p % 64) as u64;
        let old_w = self.bits[w];
        self.bits[w] = old_w | (1u64 << k);
        proof {
            assert forall|q: int| 0 <= q < MAX_TICKS implies #[trigger] bit(*final(self), q) == (q == p || bit(*old(self), q)) by {
                lemma_or_bit(old(self).bits@[q / 64], k, (q % 64) as u64);
            }
        }
    }

    /// Marks price `p` empty.
    fn clear(&mut self, p: u16)
        requires
            p < MAX_TICKS,
        ensures
            final(self).levels == old(self).levels,
            forall|q: int| 0 <= q < MAX_TICKS ==> #[trigger] bit(*final(self), q) == (q != p && bit(*old(self), q)),
    {
        let w = (p / 64) as usize;
        let k = (p % 64) as u64;
        let old_w = self.bits[w];
        self.bits[w] = old_w & !(1u64 << k);
        proof {
            assert forall|q: int| 0 <= q < MAX_TICKS implies #[trigger] bit(*final(self), q) == (q != p && bit(*old(self), q)) by {
                lemma_clear_bit(old(self).bits@[q / 64], k, (q % 64) as u64);
            }
        }
    }

    /// The highest occupied price.
    fn highest(&self) -> (r: Option<u16>)
        ensures
            match r {
                None => forall|q: int| 0 <= q < MAX_TICKS ==> !#[trigger] bit(*self, q),
                Some(p) => p < MAX_TICKS && bit(*self, p as int) && forall|q: int|
                    p < q < MAX_TICKS ==> !#[trigger] bit(*self, q),
            },
    {
        let hi = self.bits[1];
        let lo = self.bits[0];
        if hi != 0 {
            let z = hi.leading_zeros();
            proof {
                assert forall|q: int| 64 + 63 - z < q < MAX_TICKS implies !#[trigger] bit(*self, q) by {
                    assert(q / 64 == 1);
                }
                assert(bit_at(hi, 63 - z)) by {
                    let k: u64 = (63 - z) as u64;
                    assert((hi >> k) & 1u64 != 0u64 ==> (hi >> k) & 1u64 == 1u64) by (bit_vector);
                }
            }
            Some(64 + 63 - z as u16)
        } else if lo != 0 {
            let z = lo.leading_zeros();
            proof {
                assert forall|q: int| 63 - z < q < MAX_TICKS implies !#[trigger] bit(*self, q) by {
                    if q >= 64 {
                        assert(q / 64 == 1);
                        lemma_zero_word((q % 64) as u64);
                    }
                }
                assert(bit_at(lo, 63 - z)) by {
                    let k: u64 = (63 - z) as u64;
                    assert((lo >> k) & 1u64 != 0u64 ==> (lo >> k) & 1u64 == 1u64) by (bit_vector);
                }
            }
            Some(63 - z as u16)
        } else {
            proof {
                assert forall|q: int| 0 <= q < MAX_TICKS implies !#[trigger] bit(*self, q) by {
                    lemma_zero_word((q % 64) as u64);
                }
            }
            None
        }
    }

    /// The lowest occupied price.
    fn lowest(&self) -> (r: Option<u16>)
        ensures
            match r {
                None => forall|q: int| 0 <= q < MAX_TICKS ==> !#[trigger] bit(*self, q),
                Some(p) => p < MAX_TICKS && bit(*self, p as int) && forall|q: int|
                    0 <= q < p ==> !#[trigger] bit(*self, q),
            },
    {
        let hi = self.bits[1];
        let lo = self.bits[0];
        if lo != 0 {
            let z = lo.trailing_zeros();
            proof {
                assert forall|q: int| 0 <= q < z implies !#[trigger] bit(*self, q) by {
                    assert(q / 64 == 0);
                    assert((lo >> (q as u64)) & 1u64 == 0u64);
                }
            }
            Some(z as u16)
        } else if hi != 0 {
            let z = hi.trailing_zeros();
            proof {
                assert forall|q: int| 0 <= q < 64 + z implies !#[trigger] bit(*self, q) by {
                    if q < 64 {
                        lemma_zero_word(q as u64);
                    } else {
                        assert(q / 64 == 1);
                        assert((hi >> ((q % 64) as u64)) & 1u64 == 0u64);
                    }
                }
                assert(bit(*self, 64 + z));
            }
            Some(64 + z as u16)
        } else {
            proof {
                assert forall|q: int| 0 <= q < MAX_TICKS implies !#[trigger] bit(*self, q) by {
                    lemma_zero_word((q % 64) as u64);
                }
            }
            None
        }
    }
}

} // verus!

verus! {

proof fn lemma_sum_push(slots: Seq<Slot>, q: Seq<u32>, s: u32)
    ensures
        sum_rem(slots, q.push(s)) == sum_rem(slots, q) + slots[s as int].remaining,
{
    assert(q.push(s).drop_last() =~= q);
}

proof fn lemma_sum_frame(slots: Seq<Slot>, slots2: Seq<Slot>, q: Seq<u32>)
    requires
        forall|i: int|
            0 <= i < q.len() ==> #[trigger] slots2[q[i] as int].remaining == slots[q[i] as int].remaining,
    ensures
        sum_rem(slots2, q) == sum_rem(slots, q),
    decreases q.len(),
{
    if q.len() > 0 {
        let w = q.drop_last();
        assert forall|i: int| 0 <= i < w.len() implies #[trigger] slots2[w[i] as int].remaining
            == slots[w[i] as int].remaining by {
            assert(w[i] == q[i]);
        }
        lemma_sum_frame(slots, slots2, w);
        assert(q[q.len() - 1] == q.last());
    }
}

proof fn lemma_sum_remove(slots: Seq<Slot>, q: Seq<u32>, k: int)
    requires
        0 <= k < q.len(),
    ensures
        sum_rem(slots, q.remove(k)) == sum_rem(slots, q) - slots[q[k] as int].remaining,
    decreases q.len(),
{
    if k == q.len() - 1 {
        assert(q.remove(k) =~= q.drop_last());
    } else {
        let w = q.drop_last();
        lemma_sum_remove(slots, w, k);
        assert(q.remove(k).drop_last() =~= w.remove(k));
        assert(q.remove(k).last() == q.last());
    }
}

proof fn lemma_sum_change(slots: Seq<Slot>, slots2: Seq<Slot>, q: Seq<u32>, k: int)
    requires
        0 <= k < q.len(),
        q.no_duplicates(),
        forall|i: int|
            0 <= i < q.len() && i != k ==> #[trigger] slots2[q[i] as int].remaining
                == slots[q[i] as int].remaining,
    ensures
        sum_rem(slots2, q) == sum_rem(slots, q) - slots[q[k] as int].remaining
            + slots2[q[k] as int].remaining,
    decreases q.len(),
{
    let w = q.drop_last();
    if k == q.len() - 1 {
        assert forall|i: int| 0 <= i < w.len() implies #[trigger] slots2[w[i] as int].remaining
            == slots[w[i] as int].remaining by {
            assert(w[i] == q[i]);
        }
        lemma_sum_frame(slots, slots2, w);
    } else {
        assert forall|i: int| 0 <= i < w.len() && i != k implies #[trigger] slots2[w[i] as int].remaining
            == slots[w[i] as int].remaining by {
            assert(w[i] == q[i]);
        }
        lemma_sum_change(slots, slots2, w, k);
        assert(q.last() == q[q.len() - 1]);
    }
}

proof fn lemma_sum_bound(slots: Seq<Slot>, q: Seq<u32>, max: int)
    requires
        forall|i: int| 0 <= i < q.len() ==> #[trigger] slots[q[i] as int].remaining <= max,
        max >= 0,
    ensures
        0 <= sum_rem(slots, q) <= q.len() * max,
    decreases q.len(),
{
    if q.len() > 0 {
        let w = q.drop_last();
        assert forall|i: int| 0 <= i < w.len() implies #[trigger] slots[w[i] as int].remaining <= max by {
            assert(w[i] == q[i]);
        }
        lemma_sum_bound(slots, w, max);
        assert(slots[q[q.len() - 1] as int].remaining <= max);
        assert(w.len() * max + max == q.len() * max) by (nonlinear_arith)
            requires
                w.len() + 1 == q.len(),
        ;
    }
}

/// A list of distinct slots below `n` has at most `n` entries.
proof fn lemma_distinct_len(q: Seq<u32>, n: int)
    requires
        q.no_duplicates(),
        forall|i: int| 0 <= i < q.len() ==> #[trigger] q[i] < n,
        n >= 0,
    ensures
        q.len() <= n,
{
    let qi = q.map_values(|x: u32| x as int);
    assert(qi.no_duplicates()) by {
        assert forall|i: int, j: int| 0 <= i < qi.len() && 0 <= j < qi.len() && i != j implies qi[i] != qi[j] by {
            assert(q[i] != q[j]);
        }
    }
    qi.unique_seq_to_set();
    assert(qi.to_set().subset_of(vstd::set_lib::set_int_range(0, n))) by {
        assert forall|x: int| qi.to_set().contains(x) implies vstd::set_lib::set_int_range(0, n).contains(x) by {
            let i = choose|i: int| 0 <= i < qi.len() && qi[i] == x;
            assert(q[i] < n);
        }
    }
    vstd::set_lib::lemma_int_range(0, n);
    vstd::set_lib::lemma_len_subset(qi.to_set(), vstd::set_lib::set_int_range(0, n));
}

/// The unfolded facts of one position of a queue.
proof fn lemma_entry(q: Seq<u32>, slots: Seq<Slot>, side: Side, p: int, i: int)
    requires
        entry_ok(q, slots, side, p, i),
    ensures
        ({
            let sl = slots[q[i] as int];
            &&& q[i] < slots.len()
            &&& q[i] != NIL
            &&& live(sl)
            &&& side_from(sl.side) == side
            &&& sl.price == p
            &&& sl.prev == (if i == 0 { NIL } else { q[i - 1] })
            &&& sl.next == (if i + 1 == q.len() { NIL } else { q[i + 1] })
        }),
{
    reveal(entry_ok);
}

/// The slots after linking `s` behind the tail of `q`.
spec fn linked(q: Seq<u32>, sl0: Seq<Slot>, sl: Seq<Slot>, s: u32) -> bool {
    let tail = if q.len() == 0 { NIL } else { q.last() };
    &&& sl.len() == sl0.len()
    &&& forall|t: int| 0 <= t < sl0.len() && t != s && t != tail ==> #[trigger] sl[t] == sl0[t]
    &&& sl[s as int] == Slot { prev: tail, next: NIL, ..sl0[s as int] }
    &&& tail != NIL ==> sl[tail as int] == Slot { next: s, ..sl0[tail as int] }
}

proof fn lemma_push_entry(q: Seq<u32>, sl0: Seq<Slot>, sl: Seq<Slot>, s: u32, side: Side, p: int, i: int)
    requires
        queue_ok(q, sl0, side, p),
        !q.contains(s),
        s < sl0.len(),
        s != NIL,
        live(sl0[s as int]),
        side_from(sl0[s as int].side) == side,
        sl0[s as int].price == p,
        linked(q, sl0, sl, s),
        0 <= i <= q.len(),
    ensures
        entry_ok(q.push(s), sl, side, p, i),
        sl[q.push(s)[i] as int].seq == sl0[q.push(s)[i] as int].seq,
        sl[q.push(s)[i] as int].remaining == sl0[q.push(s)[i] as int].remaining,
{
    reveal(entry_ok);
    let q2 = q.push(s);
    if i < q.len() {
        assert(entry_ok(q, sl0, side, p, i));
        assert(q[i] == q2[i]);
        assert(q.contains(q[i]));
        if i + 1 < q.len() {
            assert(q[i] != q.last());
        }
    }
}

/// Linking `s` after the tail of `q` gives the queue with `s` appended.
proof fn lemma_link_push(q: Seq<u32>, sl0: Seq<Slot>, sl: Seq<Slot>, s: u32, side: Side, p: int)
    requires
        queue_ok(q, sl0, side, p),
        !q.contains(s),
        s < sl0.len(),
        s != NIL,
        live(sl0[s as int]),
        side_from(sl0[s as int].side) == side,
        sl0[s as int].price == p,
        forall|i: int| 0 <= i < q.len() ==> sl0[#[trigger] q[i] as int].seq@ < sl0[s as int].seq@,
        linked(q, sl0, sl, s),
    ensures
        queue_ok(q.push(s), sl, side, p),
        sum_rem(sl, q.push(s)) == sum_rem(sl0, q) + sl0[s as int].remaining,
{
    let q2 = q.push(s);
    assert forall|i: int| 0 <= i < q.len() implies #[trigger] sl[q[i] as int].remaining == sl0[q[i] as int].remaining by {
        lemma_push_entry(q, sl0, sl, s, side, p, i);
        assert(q2[i] == q[i]);
    }
    lemma_sum_frame(sl0, sl, q);
    lemma_sum_push(sl, q, s);
    assert(sl[s as int].remaining == sl0[s as int].remaining);
    assert(q2.no_duplicates()) by {
        assert forall|i: int, j: int| 0 <= i < q2.len() && 0 <= j < q2.len() && i != j implies q2[i] != q2[j] by {
            if i < q.len() && j < q.len() {
                assert(q[i] != q[j]);
            } else if i < q.len() {
                assert(q.contains(q[i]));
            } else {
                assert(q.contains(q[j]));
            }
        }
    }
    assert forall|i: int| 0 <= i < q2.len() implies #[trigger] entry_ok(q2, sl, side, p, i) by {
        lemma_push_entry(q, sl0, sl, s, side, p, i);
    }
    assert forall|i: int, j: int| #![trigger q2[i], q2[j]] 0 <= i < j < q2.len() implies sl[q2[i] as int].seq@ < sl[q2[j] as int].seq@ by {
        lemma_push_entry(q, sl0, sl, s, side, p, i);
        lemma_push_entry(q, sl0, sl, s, side, p, j);
        assert(q2[i] == q[i]);
        if j < q.len() {
            assert(q2[j] == q[j]);
        }
    }
    assert(q2.no_duplicates());
    assert(forall|i: int, j: int| #![trigger q2[i], q2[j]] 0 <= i < j < q2.len() ==> sl[q2[i] as int].seq@ < sl[q2[j] as int].seq@);
}

/// Appends slot `s` to the level at `p`.
fn level_push(book: &mut BookSide, slots: &mut Vec<Slot>, p: u16, s: u32, Ghost(side): Ghost<Side>)
    requires
        p < MAX_TICKS,
        old(book).levels@.len() == MAX_TICKS,
        s < old(slots)@.len(),
        s != NIL,
        level_ok(*old(book), old(slots)@, side, p as int),
        !old(book).levels@[p as int].queue@.contains(s),
        live(old(slots)@[s as int]),
        side_from(old(slots)@[s as int].side) == side,
        old(slots)@[s as int].price == p,
        forall|i: int|
            0 <= i < old(book).levels@[p as int].queue@.len() ==> old(slots)@[#[trigger] old(
                book,
            ).levels@[p as int].queue@[i] as int].seq@ < old(slots)@[s as int].seq@,
        old(book).levels@[p as int].total + old(slots)@[s as int].remaining <= u64::MAX,
    ensures
        final(book).levels@.len() == MAX_TICKS,
        forall|r: int| 0 <= r < MAX_TICKS && r != p ==> #[trigger] final(book).levels@[r] == old(book).levels@[r],
        forall|r: int| 0 <= r < MAX_TICKS && r != p ==> #[trigger] bit(*final(book), r) == bit(*old(book), r),
        final(book).levels@[p as int].queue@ == old(book).levels@[p as int].queue@.push(s),
        level_ok(*final(book), final(slots)@, side, p as int),
        final(slots)@.len() == old(slots)@.len(),
        ({
            let tail = old(book).levels@[p as int].tail;
            &&& forall|t: int| 0 <= t < old(slots)@.len() && t != s && t != tail ==> #[trigger] final(slots)@[t] == old(slots)@[t]
            &&& final(slots)@[s as int] == Slot { prev: tail, next: NIL, ..old(slots)@[s as int] }
            &&& tail != NIL ==> final(slots)@[tail as int] == Slot { next: s, ..old(slots)@[tail as int] }
            &&& tail != NIL ==> old(book).levels@[p as int].queue@.contains(tail)
        }),
{
    let ghost q = book.levels@[p as int].queue@;
    let ghost sl0 = slots@;
    let tail = book.levels[p as usize].tail;
    proof {
        if q.len() > 0 {
            lemma_entry(q, sl0, side, p as int, q.len() - 1);
        }
    }
    slots[s as usize].prev = tail;
    slots[s as usize].next = NIL;
    let remaining = slots[s as usize].remaining as u64;
    if tail == NIL {
        book.levels[p as usize].head = s;
        book.set(p);
    } else {
        proof {
            assert(q[q.len() - 1] == tail);
        }
        slots[tail as usize].next = s;
    }
    let ghost bits1 = book.bits;
    let ghost b1 = *book;
    proof {
        assert(bit(*book, p as int));
        assert forall|r: int| 0 <= r < MAX_TICKS && r != p implies #[trigger] bit(*book, r) == bit(*old(book), r) by {}
        if tail != NIL {
            assert(q.contains(tail));
        }
        lemma_link_push(q, sl0, slots@, s, side, p as int);
    }
    book.levels[p as usize].tail = s;
    book.levels[p as usize].total = book.levels[p as usize].total + remaining;
    book.levels[p as usize].queue = Ghost(q.push(s));
    proof {
        assert(book.bits == bits1);
        assert forall|r: int| 0 <= r < MAX_TICKS && r != p implies #[trigger] bit(*book, r) == bit(*old(book), r) by {
            assert(bit(*book, r) == bit(b1, r));
        }
        assert forall|r: int| 0 <= r < MAX_TICKS && r != p implies #[trigger] final(book).levels@[r] == old(book).levels@[r] by {}
    }
}

} // verus!

verus! {

/// The slots after unlinking position `k` of `q`: only the unlinked order and its two
/// neighbours changed, and only in their links.
spec fn unlinked(q: Seq<u32>, sl0: Seq<Slot>, sl: Seq<Slot>, k: int) -> bool {
    let s = q[k];
    let prev = sl0[s as int].prev;
    let next = sl0[s as int].next;
    &&& sl.len() == sl0.len()
    &&& forall|t: int| 0 <= t < sl0.len() && t != s && t != prev && t != next ==> #[trigger] sl[t] == sl0[t]
    &&& sl[s as int] == Slot { prev: NIL, next: NIL, ..sl0[s as int] }
    &&& prev != NIL ==> sl[prev as int] == Slot { next, ..sl0[prev as int] }
    &&& next != NIL ==> sl[next as int] == Slot { prev, ..sl0[next as int] }
}

#[verifier::rlimit(40)]
proof fn lemma_unlink_entry(q: Seq<u32>, sl0: Seq<Slot>, sl: Seq<Slot>, k: int, side: Side, p: int, i: int)
    requires
        queue_ok(q, sl0, side, p),
        0 <= k < q.len(),
        unlinked(q, sl0, sl, k),
        0 <= i < q.len() - 1,
    ensures
        entry_ok(q.remove(k), sl, side, p, i),
        sl[q.remove(k)[i] as int].seq == sl0[q.remove(k)[i] as int].seq,
        sl[q.remove(k)[i] as int].remaining == sl0[q.remove(k)[i] as int].remaining,
        q.remove(k)[i] == q[if i < k { i } else { i + 1 }],
{
    let q2 = q.remove(k);
    let j = if i < k { i } else { i + 1 };
    assert(q2[i] == q[j]);
    assert(q[j] != q[k]);
    lemma_entry(q, sl0, side, p, j);
    lemma_entry(q, sl0, side, p, k);
    let x = q[j];
    let t0 = sl0[x as int];
    let t = sl[x as int];
    assert(t.generation == t0.generation && t.side == t0.side && t.price == t0.price && t.seq == t0.seq && t.remaining == t0.remaining);
    let want_prev = if i == 0 { NIL } else { q2[i - 1] };
    let want_next = if i + 1 == q2.len() { NIL } else { q2[i + 1] };
    if i > 0 {
        let jm = if i - 1 < k { i - 1 } else { i };
        assert(q2[i - 1] == q[jm]);
    }
    if i + 1 < q2.len() {
        let jp = if i + 1 < k { i + 1 } else { i + 2 };
        assert(q2[i + 1] == q[jp]);
    }
    if j == k - 1 {
        assert(t.prev == t0.prev);
        assert(t.next == want_next);
    } else if j == k + 1 {
        assert(t.prev == want_prev);
        assert(t.next == t0.next);
    } else {
        if j > 0 {
            assert(q[j - 1] != q[j]);
        }
        if j + 1 < q.len() {
            assert(q[j + 1] != q[j]);
        }
        assert(t == t0);
    }
    assert(t.prev == want_prev);
    assert(t.next == want_next);
    assert(entry_ok(q2, sl, side, p, i)) by {
        reveal(entry_ok);
    }
}

/// Unlinking position `k` of a queue leaves a queue without it, with that order's lots
/// taken off the sum.
proof fn lemma_unlink(q: Seq<u32>, sl0: Seq<Slot>, sl: Seq<Slot>, k: int, side: Side, p: int)
    requires
        queue_ok(q, sl0, side, p),
        0 <= k < q.len(),
        unlinked(q, sl0, sl, k),
    ensures
        queue_ok(q.remove(k), sl, side, p),
        sum_rem(sl, q.remove(k)) == sum_rem(sl0, q) - sl0[q[k] as int].remaining,
{
    let q2 = q.remove(k);
    lemma_sum_remove(sl0, q, k);
    assert forall|i: int| 0 <= i < q2.len() implies #[trigger] sl[q2[i] as int].remaining == sl0[q2[i] as int].remaining by {
        lemma_unlink_entry(q, sl0, sl, k, side, p, i);
    }
    lemma_sum_frame(sl0, sl, q2);
    assert(q2.no_duplicates()) by {
        assert forall|i: int, j: int| 0 <= i < q2.len() && 0 <= j < q2.len() && i != j implies q2[i] != q2[j] by {
            lemma_unlink_entry(q, sl0, sl, k, side, p, i);
            lemma_unlink_entry(q, sl0, sl, k, side, p, j);
            let a = if i < k { i } else { i + 1 };
            let b = if j < k { j } else { j + 1 };
            assert(q[a] != q[b]);
        }
    }
    assert forall|i: int| 0 <= i < q2.len() implies #[trigger] entry_ok(q2, sl, side, p, i) by {
        lemma_unlink_entry(q, sl0, sl, k, side, p, i);
    }
    assert forall|i: int, j: int| #![trigger q2[i], q2[j]] 0 <= i < j < q2.len() implies sl[q2[i] as int].seq@ < sl[q2[j] as int].seq@ by {
        lemma_unlink_entry(q, sl0, sl, k, side, p, i);
        lemma_unlink_entry(q, sl0, sl, k, side, p, j);
        let a = if i < k { i } else { i + 1 };
        let b = if j < k { j } else { j + 1 };
        assert(sl0[q[a] as int].seq@ < sl0[q[b] as int].seq@);
    }
}

/// Unlinks slot `s`, at position `k` of the level at `p`.
fn level_remove(
    book: &mut BookSide,
    slots: &mut Vec<Slot>,
    p: u16,
    s: u32,
    Ghost(side): Ghost<Side>,
    Ghost(k): Ghost<int>,
)
    requires
        p < MAX_TICKS,
        old(book).levels@.len() == MAX_TICKS,
        level_ok(*old(book), old(slots)@, side, p as int),
        0 <= k < old(book).levels@[p as int].queue@.len(),
        old(book).levels@[p as int].queue@[k] == s,
    ensures
        final(book).levels@.len() == MAX_TICKS,
        forall|r: int| 0 <= r < MAX_TICKS && r != p ==> #[trigger] final(book).levels@[r] == old(book).levels@[r],
        forall|r: int| 0 <= r < MAX_TICKS && r != p ==> #[trigger] bit(*final(book), r) == bit(*old(book), r),
        final(book).levels@[p as int].queue@ == old(book).levels@[p as int].queue@.remove(k),
        level_ok(*final(book), final(slots)@, side, p as int),
        final(slots)@.len() == old(slots)@.len(),
        ({
            let q = old(book).levels@[p as int].queue@;
            let prev = old(slots)@[s as int].prev;
            let next = old(slots)@[s as int].next;
            &&& forall|t: int| 0 <= t < old(slots)@.len() && t != s && t != prev && t != next ==> #[trigger] final(slots)@[t] == old(slots)@[t]
            &&& final(slots)@[s as int] == Slot { prev: NIL, next: NIL, ..old(slots)@[s as int] }
            &&& prev != NIL ==> k > 0 && prev == q[k - 1] && final(slots)@[prev as int] == Slot { next, ..old(slots)@[prev as int] }
            &&& next != NIL ==> k + 1 < q.len() && next == q[k + 1] && final(slots)@[next as int] == Slot { prev, ..old(slots)@[next as int] }
        }),
{
    let ghost q = book.levels@[p as int].queue@;
    let ghost sl0 = slots@;
    let ghost b0 = *book;
    proof {
        lemma_entry(q, sl0, side, p as int, k);
        if k > 0 {
            lemma_entry(q, sl0, side, p as int, k - 1);
        }
        if k + 1 < q.len() {
            lemma_entry(q, sl0, side, p as int, k + 1);
        }
    }
    let sl = slots[s as usize];
    let prev = sl.prev;
    let next = sl.next;
    let remaining = sl.remaining;
    proof {
        assert(q[k] == s);
    }
    if prev == NIL {
        book.levels[p as usize].head = next;
    } else {
        slots[prev as usize].next = next;
    }
    if next == NIL {
        book.levels[p as usize].tail = prev;
    } else {
        slots[next as usize].prev = prev;
    }
    slots[s as usize].prev = NIL;
    slots[s as usize].next = NIL;
    proof {
        lemma_unlink(q, sl0, slots@, k, side, p as int);
        lemma_sum_bound(slots@, q.remove(k), u32::MAX as int);
    }
    book.levels[p as usize].total = book.levels[p as usize].total - remaining as u64;
    book.levels[p as usize].queue = Ghost(q.remove(k));
    let ghost b1 = *book;
    if book.levels[p as usize].head == NIL {
        book.clear(p);
    }
    proof {
        let q2 = q.remove(k);
        let sl = slots@;
        if q2.len() > 0 {
            if k == 0 {
                assert(q2[0] == q[1]);
            }
            if k == q.len() - 1 {
                assert(q2.last() == q[k - 1]);
            } else {
                assert(q2.last() == q.last());
            }
        }
        assert forall|r: int| 0 <= r < MAX_TICKS && r != p implies #[trigger] bit(*book, r) == bit(*old(book), r) by {
            assert(bit(b1, r) == bit(b0, r));
        }
        assert forall|r: int| 0 <= r < MAX_TICKS && r != p implies #[trigger] book.levels@[r] == old(book).levels@[r] by {}
        assert forall|t: int| 0 <= t < sl0.len() && t != s && t != prev && t != next implies #[trigger] sl[t] == sl0[t] by {}
        if prev != NIL {
            assert(k > 0);
        }
        if next != NIL {
            assert(k + 1 < q.len());
        }
    }
}

/// Takes `qty` lots off the level total at `p` (a partial fill or reduce).
fn level_sub_qty(book: &mut BookSide, p: u16, qty: u32)
    requires
        p < MAX_TICKS,
        old(book).levels@.len() == MAX_TICKS,
        old(book).levels@[p as int].total >= qty,
    ensures
        final(book).bits == old(book).bits,
        final(book).levels@ == old(book).levels@.update(
            p as int,
            Level { total: (old(book).levels@[p as int].total - qty) as u64, ..old(book).levels@[p as int] },
        ),
{
    book.levels[p as usize].total = book.levels[p as usize].total - qty as u64;
}

} // verus!

verus! {

spec fn side_book(bids: BookSide, asks: BookSide, side: Side) -> BookSide {
    match side {
        Side::Buy => bids,
        Side::Sell => asks,
    }
}

spec fn in_level(sl: Slot, side: Side, p: int) -> bool {
    live(sl) && side_from(sl.side) == side && sl.price == p
}

/// Every level of both sides is well formed.
spec fn levels_ok(bids: BookSide, asks: BookSide, slots: Seq<Slot>) -> bool {
    &&& bids.levels@.len() == MAX_TICKS
    &&& asks.levels@.len() == MAX_TICKS
    &&& forall|side: Side, p: int|
        0 <= p < MAX_TICKS ==> #[trigger] level_ok(side_book(bids, asks, side), slots, side, p)
}

/// Slot `s` is linked into its level when live and fully detached when not.
spec fn placed(bids: BookSide, asks: BookSide, slots: Seq<Slot>, s: int) -> bool {
    let sl = slots[s];
    if live(sl) {
        &&& sl.price < MAX_TICKS
        &&& side_book(bids, asks, side_from(sl.side)).levels@[sl.price as int].queue@.contains(s as u32)
    } else {
        sl.prev == NIL && sl.next == NIL
    }
}

spec fn all_placed(bids: BookSide, asks: BookSide, slots: Seq<Slot>) -> bool {
    forall|s: int| 0 <= s < slots.len() ==> #[trigger] placed(bids, asks, slots, s)
}

/// The order a live slot holds.
spec fn sview(sl: Slot) -> OrderView {
    OrderView {
        account: sl.account,
        side: side_from(sl.side),
        price: sl.price,
        remaining: sl.remaining,
        filled: sl.filled,
        seq: sl.seq@,
    }
}

spec fn slot_orders(slots: Seq<Slot>) -> Map<u32, OrderView> {
    Map::new(|s: u32| s < slots.len() && live(slots[s as int]), |s: u32| sview(slots[s as int]))
}

spec fn slot_gens(slots: Seq<Slot>) -> Seq<u32> {
    Seq::new(slots.len(), |i: int| slots[i].generation)
}

/// Two slots hold the same order data; only their links may differ.
spec fn same_data(a: Slot, b: Slot) -> bool {
    a.generation == b.generation && sview(a) == sview(b)
}

proof fn lemma_level_frame(bs: BookSide, bs2: BookSide, sl: Seq<Slot>, sl2: Seq<Slot>, side: Side, p: int)
    requires
        level_ok(bs, sl, side, p),
        bs2.levels@[p] == bs.levels@[p],
        bit(bs2, p) == bit(bs, p),
        sl2.len() == sl.len(),
        forall|i: int| 0 <= i < bs.levels@[p].queue@.len() ==> sl2[#[trigger] bs.levels@[p].queue@[i] as int] == sl[bs.levels@[p].queue@[i] as int],
    ensures
        level_ok(bs2, sl2, side, p),
{
    let q = bs.levels@[p].queue@;
    assert forall|i: int| 0 <= i < q.len() implies #[trigger] entry_ok(q, sl2, side, p, i) by {
        assert(entry_ok(q, sl, side, p, i));
        assert(sl2[q[i] as int] == sl[q[i] as int]);
        reveal(entry_ok);
    }
    assert forall|i: int| 0 <= i < q.len() implies #[trigger] sl2[q[i] as int].remaining == sl[q[i] as int].remaining by {
        assert(sl2[q[i] as int] == sl[q[i] as int]);
    }
    lemma_sum_frame(sl, sl2, q);
    assert forall|i: int, j: int| #![trigger q[i], q[j]] 0 <= i < j < q.len() implies sl2[q[i] as int].seq@ < sl2[q[j] as int].seq@ by {
        assert(sl2[q[i] as int] == sl[q[i] as int]);
        assert(sl2[q[j] as int] == sl[q[j] as int]);
    }
}

/// Levels other than (`side0`, `p0`) stay well formed when the books keep them and every
/// changed slot was free or in that one level.
proof fn lemma_levels_frame(
    bids: BookSide,
    asks: BookSide,
    sl: Seq<Slot>,
    bids2: BookSide,
    asks2: BookSide,
    sl2: Seq<Slot>,
    side0: Side,
    p0: int,
)
    requires
        levels_ok(bids, asks, sl),
        bids2.levels@.len() == MAX_TICKS,
        asks2.levels@.len() == MAX_TICKS,
        sl2.len() == sl.len(),
        forall|t: int| 0 <= t < sl.len() && sl2[t] != sl[t] ==> !live(sl[t]) || in_level(#[trigger] sl[t], side0, p0),
        forall|side: Side, p: int|
            #![trigger side_book(bids2, asks2, side).levels@[p]]
            0 <= p < MAX_TICKS && (side != side0 || p != p0) ==> side_book(bids2, asks2, side).levels@[p]
                == side_book(bids, asks, side).levels@[p],
        forall|side: Side, p: int|
            #![trigger bit(side_book(bids2, asks2, side), p)]
            0 <= p < MAX_TICKS && (side != side0 || p != p0) ==> bit(side_book(bids2, asks2, side), p) == bit(side_book(bids, asks, side), p),
    ensures
        forall|side: Side, p: int|
            0 <= p < MAX_TICKS && (side != side0 || p != p0) ==> #[trigger] level_ok(side_book(bids2, asks2, side), sl2, side, p),
{
    assert forall|side: Side, p: int| 0 <= p < MAX_TICKS && (side != side0 || p != p0) implies #[trigger] level_ok(side_book(bids2, asks2, side), sl2, side, p) by {
        let bs = side_book(bids, asks, side);
        let bs2 = side_book(bids2, asks2, side);
        assert(level_ok(bs, sl, side, p));
        assert(bs2.levels@[p] == bs.levels@[p] && bit(bs2, p) == bit(bs, p));
        let q = bs.levels@[p].queue@;
        assert forall|i: int| 0 <= i < q.len() implies sl2[#[trigger] q[i] as int] == sl[q[i] as int] by {
            assert(entry_ok(q, sl, side, p, i));
            lemma_entry(q, sl, side, p, i);
        }
        lemma_level_frame(bs, bs2, sl, sl2, side, p);
    }
}

/// The orders and generations only depend on each slot's data, not its links.
proof fn lemma_view_frame(sl: Seq<Slot>, sl2: Seq<Slot>)
    requires
        sl2.len() == sl.len(),
        forall|t: int| 0 <= t < sl.len() ==> same_data(#[trigger] sl2[t], sl[t]),
    ensures
        slot_orders(sl2) == slot_orders(sl),
        slot_gens(sl2) == slot_gens(sl),
{
    assert(slot_orders(sl2) =~= slot_orders(sl)) by {
        assert forall|s: u32| #[trigger] slot_orders(sl2).contains_key(s) == slot_orders(sl).contains_key(s) by {
            if s < sl.len() {
                assert(same_data(sl2[s as int], sl[s as int]));
            }
        }
        assert forall|s: u32| #[trigger] slot_orders(sl2).contains_key(s) implies slot_orders(sl2)[s] == slot_orders(sl)[s] by {
            assert(same_data(sl2[s as int], sl[s as int]));
        }
    }
    assert(slot_gens(sl2) =~= slot_gens(sl)) by {
        assert forall|i: int| 0 <= i < sl.len() implies #[trigger] slot_gens(sl2)[i] == slot_gens(sl)[i] by {
            assert(same_data(sl2[i], sl[i]));
        }
    }
}

/// Changing the data of one slot changes the orders and generations at that slot only.
proof fn lemma_view_update(sl: Seq<Slot>, sl2: Seq<Slot>, s: u32)
    requires
        sl2.len() == sl.len(),
        s < sl.len(),
        forall|t: int| 0 <= t < sl.len() && t != s ==> same_data(#[trigger] sl2[t], sl[t]),
    ensures
        slot_gens(sl2) == slot_gens(sl).update(s as int, sl2[s as int].generation),
        live(sl2[s as int]) ==> slot_orders(sl2) == slot_orders(sl).insert(s, sview(sl2[s as int])),
        !live(sl2[s as int]) ==> slot_orders(sl2) == slot_orders(sl).remove(s),
{
    assert(slot_gens(sl2) =~= slot_gens(sl).update(s as int, sl2[s as int].generation)) by {
        assert forall|i: int| 0 <= i < sl.len() && i != s implies #[trigger] slot_gens(sl2)[i] == slot_gens(sl)[i] by {
            assert(same_data(sl2[i], sl[i]));
        }
    }
    if live(sl2[s as int]) {
        assert(slot_orders(sl2) =~= slot_orders(sl).insert(s, sview(sl2[s as int]))) by {
            assert forall|t: u32| #[trigger] slot_orders(sl2).contains_key(t) == slot_orders(sl).insert(s, sview(sl2[s as int])).contains_key(t) by {
                if t < sl.len() && t != s {
                    assert(same_data(sl2[t as int], sl[t as int]));
                }
            }
            assert forall|t: u32| #[trigger] slot_orders(sl2).contains_key(t) implies slot_orders(sl2)[t] == slot_orders(sl).insert(s, sview(sl2[s as int]))[t] by {
                if t != s {
                    assert(same_data(sl2[t as int], sl[t as int]));
                }
            }
        }
    } else {
        assert(slot_orders(sl2) =~= slot_orders(sl).remove(s)) by {
            assert forall|t: u32| #[trigger] slot_orders(sl2).contains_key(t) == slot_orders(sl).remove(s).contains_key(t) by {
                if t < sl.len() && t != s {
                    assert(same_data(sl2[t as int], sl[t as int]));
                }
            }
            assert forall|t: u32| #[trigger] slot_orders(sl2).contains_key(t) implies slot_orders(sl2)[t] == slot_orders(sl).remove(s)[t] by {
                assert(same_data(sl2[t as int], sl[t as int]));
            }
        }
    }
}

} // verus!

verus! {

/// The fast engine.
pub struct FastBook {
    cfg: Config,
    slots: Vec<Slot>,
    free: Vec<u32>,
    retired: u32,
    live: u32,
    bids: BookSide,
    asks: BookSide,
    next_seq: Ghost<nat>,
}

impl FastBook {
    spec fn rep_ok(&self) -> bool {
        &&& self.cfg.max_tick.0 < MAX_TICKS
        &&& self.slots@.len() == self.cfg.capacity
        &&& levels_ok(self.bids, self.asks, self.slots@)
        &&& all_placed(self.bids, self.asks, self.slots@)
        &&& self.live as nat == slot_orders(self.slots@).dom().len()
    }

    spec fn view_of(&self) -> BookView {
        BookView {
            gens: slot_gens(self.slots@),
            free: self.free@,
            retired: self.retired,
            orders: slot_orders(self.slots@),
            next_seq: self.next_seq@,
        }
    }

    spec fn side_of_book(&self, side: Side) -> BookSide {
        side_book(self.bids, self.asks, side)
    }
}

/// The best price of `side` is the head of the highest (bids) or lowest (asks) occupied
/// level, and that head is the best order.
proof fn lemma_fast_best(bids: BookSide, asks: BookSide, slots: Seq<Slot>, side: Side, p: int)
    requires
        levels_ok(bids, asks, slots),
        all_placed(bids, asks, slots),
        0 <= p < MAX_TICKS,
        bit(side_book(bids, asks, side), p),
        forall|r: int| 0 <= r < MAX_TICKS && better(side, r as u16, p as u16) ==> !#[trigger] bit(side_book(bids, asks, side), r),
    ensures
        side_book(bids, asks, side).levels@[p].queue@.len() > 0,
        best(slot_orders(slots), side) == Some(side_book(bids, asks, side).levels@[p].queue@[0]),
        slot_orders(slots)[side_book(bids, asks, side).levels@[p].queue@[0]].price == p,
{
    let bs = side_book(bids, asks, side);
    let q = bs.levels@[p].queue@;
    let m = slot_orders(slots);
    assert(level_ok(bs, slots, side, p));
    let h = q[0];
    assert(entry_ok(q, slots, side, p, 0));
    lemma_entry(q, slots, side, p, 0);
    assert(m.contains_key(h));
    assert forall|t: u32| #![trigger m.contains_key(t)] m.contains_key(t) && m[t].side == side && t != h implies ahead(side, m[h], m[t]) by {
        assert(placed(bids, asks, slots, t as int));
        let pt = slots[t as int].price as int;
        let qt = bs.levels@[pt].queue@;
        assert(level_ok(bs, slots, side, pt));
        assert(qt.contains(t));
        if pt == p {
            let j = choose|j: int| 0 <= j < q.len() && q[j] == t;
            assert(j != 0);
            assert(slots[q[0] as int].seq@ < slots[q[j] as int].seq@);
        } else {
            assert(bit(bs, pt));
        }
    }
    assert(is_best(m, side, h));
    lemma_best_is(m, side, h);
}

/// No occupied level on `side` means no order on `side`.
proof fn lemma_fast_empty(bids: BookSide, asks: BookSide, slots: Seq<Slot>, side: Side)
    requires
        levels_ok(bids, asks, slots),
        all_placed(bids, asks, slots),
        forall|r: int| 0 <= r < MAX_TICKS ==> !#[trigger] bit(side_book(bids, asks, side), r),
    ensures
        forall|t: u32| #![trigger slot_orders(slots).contains_key(t)] slot_orders(slots).contains_key(t) ==> slot_orders(slots)[t].side != side,
        best(slot_orders(slots), side) is None,
{
    let m = slot_orders(slots);
    let bs = side_book(bids, asks, side);
    assert forall|t: u32| #![trigger m.contains_key(t)] m.contains_key(t) implies m[t].side != side by {
        if m[t].side == side {
            assert(placed(bids, asks, slots, t as int));
            let pt = slots[t as int].price as int;
            assert(level_ok(bs, slots, side, pt));
            assert(bs.levels@[pt].queue@.contains(t));
            assert(bit(bs, pt));
        }
    }
    if best(m, side) is Some {
        let c = choose|x: u32| is_best(m, side, x);
        assert(m.contains_key(c));
    }
}

} // verus!

verus! {

impl FastBook {
    spec fn inv(&self) -> bool {
        book_inv(self.cfg, self.view_of()) && self.rep_ok()
    }

    /// A book with every slot free. The configuration must be one `Config::validate`
    /// accepts, with `max_tick` below `MAX_TICKS`.
    pub fn new(cfg: Config) -> (r: Self)
        requires
            cfg_valid(cfg),
            cfg.max_tick.0 < MAX_TICKS,
        ensures
            r.wf(),
            r.config() == cfg,
            r.book() == initial(cfg),
    {
        let mut slots: Vec<Slot> = Vec::new();
        let mut i: u32 = 0;
        while i < cfg.capacity
            invariant
                i <= cfg.capacity,
                slots@.len() == i,
                forall|k: int| #![trigger slots@[k]] 0 <= k < i ==> slots@[k].generation == 0 && slots@[k].prev == NIL && slots@[k].next == NIL,
            decreases cfg.capacity - i,
        {
            slots.push(
                Slot {
                    generation: 0,
                    prev: NIL,
                    next: NIL,
                    remaining: 0,
                    filled: 0,
                    account: 0,
                    price: 0,
                    side: BUY,
                    seq: Ghost(0),
                },
            );
            i = i + 1;
        }
        let mut free: Vec<u32> = Vec::new();
        let mut j: u32 = cfg.capacity;
        while j > 0
            invariant
                j <= cfg.capacity,
                free@ == Seq::new((cfg.capacity - j) as nat, |k: int| (cfg.capacity - 1 - k) as u32),
            decreases j,
        {
            j = j - 1;
            free.push(j);
        }
        let r = FastBook {
            cfg,
            slots,
            free,
            retired: 0,
            live: 0,
            bids: BookSide::new(),
            asks: BookSide::new(),
            next_seq: Ghost(0),
        };
        proof {
            let sl = r.slots@;
            assert(slot_orders(sl) =~= Map::<u32, OrderView>::empty());
            assert(slot_gens(sl) =~= Seq::new(cfg.capacity as nat, |i: int| 0u32));
            assert(r.view_of() == initial(cfg));
            lemma_initial_inv(cfg);
            assert forall|side: Side, p: int| 0 <= p < MAX_TICKS implies #[trigger] level_ok(side_book(r.bids, r.asks, side), sl, side, p) by {
                let bs = side_book(r.bids, r.asks, side);
                assert(bs.levels@[p].queue@ == Seq::<u32>::empty());
                assert(queue_ok(Seq::<u32>::empty(), sl, side, p));
            }
            assert forall|s: int| 0 <= s < sl.len() implies #[trigger] placed(r.bids, r.asks, sl, s) by {}
            assert(slot_orders(sl).dom() =~= Set::<u32>::empty());
        }
        r
    }

    /// The highest bid price, if any.
    pub fn best_bid(&self) -> (r: Option<Price>)
        requires
            self.wf(),
        ensures
            r == best_price(self.book().orders, Side::Buy),
    {
        match self.bids.highest() {
            Some(p) => {
                proof {
                    lemma_fast_best(self.bids, self.asks, self.slots@, Side::Buy, p as int);
                }
                Some(Price(p))
            },
            None => {
                proof {
                    lemma_fast_empty(self.bids, self.asks, self.slots@, Side::Buy);
                }
                None
            },
        }
    }

    /// The lowest ask price, if any.
    pub fn best_ask(&self) -> (r: Option<Price>)
        requires
            self.wf(),
        ensures
            r == best_price(self.book().orders, Side::Sell),
    {
        match self.asks.lowest() {
            Some(p) => {
                proof {
                    lemma_fast_best(self.bids, self.asks, self.slots@, Side::Sell, p as int);
                }
                Some(Price(p))
            },
            None => {
                proof {
                    lemma_fast_empty(self.bids, self.asks, self.slots@, Side::Sell);
                }
                None
            },
        }
    }

    /// Number of resting orders.
    pub fn live_orders(&self) -> (r: usize)
        requires
            self.wf(),
        ensures
            r == self.book().orders.dom().len(),
    {
        self.live as usize
    }

    /// Number of slots retired for good.
    pub fn retired_slots(&self) -> (r: u32)
        ensures
            r == self.book().retired,
    {
        self.retired
    }

    /// The best price level on the makers' `side`, if any.
    fn best(&self, side: Side) -> (r: Option<u16>)
        requires
            self.inv(),
        ensures
            match r {
                None => best(self.view_of().orders, side) is None && forall|t: u32|
                    #![trigger self.view_of().orders.contains_key(t)]
                    self.view_of().orders.contains_key(t) ==> self.view_of().orders[t].side != side,
                Some(p) => p < MAX_TICKS && self.side_of_book(side).levels@[p as int].queue@.len() > 0
                    && best(self.view_of().orders, side) == Some(self.side_of_book(side).levels@[p as int].queue@[0])
                    && self.view_of().orders[self.side_of_book(side).levels@[p as int].queue@[0]].price == p,
            },
    {
        let r = match side {
            Side::Buy => self.bids.highest(),
            Side::Sell => self.asks.lowest(),
        };
        proof {
            match r {
                Some(p) => lemma_fast_best(self.bids, self.asks, self.slots@, side, p as int),
                None => lemma_fast_empty(self.bids, self.asks, self.slots@, side),
            }
        }
        r
    }

    fn marketable(&self, side: Side, limit: Price) -> (r: bool)
        requires
            self.inv(),
        ensures
            r == marketable(self.view_of().orders, side, limit.0),
    {
        match self.best(side.opposite()) {
            Some(p) => side.crosses(limit, Price(p)),
            None => false,
        }
    }

    fn id_of(&self, s: u32) -> (r: OrderId)
        requires
            s < self.slots@.len(),
        ensures
            r == id_of(s, self.slots@[s as int].generation),
    {
        OrderId::new(s, self.slots[s as usize].generation)
    }

    /// The slot a command from `account` names by `id`, if it may touch it.
    fn lookup(&self, id: OrderId, account: AccountId) -> (r: Option<u32>)
        requires
            self.inv(),
        ensures
            r == lookup(self.cfg, self.view_of(), id, account),
    {
        let s = id.slot();
        if s as usize >= self.slots.len() {
            return None;
        }
        let slot = self.slots[s as usize];
        let g = slot.generation;
        let is_live = g & 1 == 1;
        proof {
            assert((g & 1u32 == 1u32) == (g % 2 == 1)) by (bit_vector);
        }
        if is_live && slot.generation == id.generation() && slot.account == account {
            Some(s)
        } else {
            None
        }
    }
}

} // verus!

verus! {

impl FastBook {
    fn alloc_slot(&mut self) -> (r: Option<u32>)
        requires
            old(self).inv(),
        ensures
            final(self).cfg == old(self).cfg,
            final(self).bids == old(self).bids,
            final(self).asks == old(self).asks,
            final(self).next_seq == old(self).next_seq,
            final(self).retired == old(self).retired,
            old(self).free@.len() == 0 ==> r is None && *final(self) == *old(self),
            old(self).free@.len() > 0 ==> {
                let s = old(self).free@.last();
                &&& r == Some(s)
                &&& s < old(self).slots@.len()
                &&& !live(old(self).slots@[s as int])
                &&& final(self).slots@ == old(self).slots@.update(
                    s as int,
                    Slot { generation: (old(self).slots@[s as int].generation + 1) as u32, ..old(self).slots@[s as int] },
                )
                &&& final(self).free@ == old(self).free@.drop_last()
                &&& final(self).live == old(self).live + 1
                &&& slot_gens(final(self).slots@) == take_slot(old(self).view_of()).gens
            },
    {
        if self.free.len() == 0 {
            return None;
        }
        let ghost st = self.view_of();
        let s = self.free.pop().unwrap();
        proof {
            let k = st.free.len() - 1;
            assert(st.free[k] == s);
            assert(s < self.cfg.capacity);
            assert(st.gens[s as int] % 2 == 0);
            assert(slot_orders(old(self).slots@).dom().len() + st.free.len() + st.retired == self.cfg.capacity);
        }
        let g = self.slots[s as usize].generation + 1;
        self.slots[s as usize].generation = g;
        self.live = self.live + 1;
        proof {
            assert(self.slots@ =~= old(self).slots@.update(
                s as int,
                Slot { generation: g, ..old(self).slots@[s as int] },
            ));
            assert(slot_gens(self.slots@) =~= take_slot(st).gens);
        }
        Some(s)
    }

    fn will_retire(&self, s: u32) -> (r: bool)
        requires
            s < self.slots@.len(),
        ensures
            r == will_retire(self.cfg, self.view_of(), s),
    {
        self.slots[s as usize].generation as u64 + 2 > self.cfg.generation_limit as u64
    }

    fn release(&mut self, s: u32)
        requires
            s < old(self).slots@.len(),
            live(old(self).slots@[s as int]),
            old(self).live >= 1,
            old(self).retired < u32::MAX,
        ensures
            final(self).cfg == old(self).cfg,
            final(self).bids == old(self).bids,
            final(self).asks == old(self).asks,
            final(self).next_seq == old(self).next_seq,
            final(self).live == old(self).live - 1,
            ({
                let st = crate::model::release(old(self).cfg, old(self).view_of(), s);
                &&& final(self).free@ == st.free
                &&& final(self).retired == st.retired
                &&& final(self).slots@ == old(self).slots@.update(
                    s as int,
                    Slot { generation: st.gens[s as int], ..old(self).slots@[s as int] },
                )
                &&& slot_gens(final(self).slots@) == st.gens
            }),
    {
        self.live = self.live - 1;
        if self.will_retire(s) {
            let g = self.slots[s as usize].generation - 1;
            self.slots[s as usize].generation = g;
            self.retired = self.retired + 1;
        } else {
            let g = self.slots[s as usize].generation + 1;
            self.slots[s as usize].generation = g;
            self.free.push(s);
        }
        proof {
            let st = crate::model::release(old(self).cfg, old(self).view_of(), s);
            assert(self.slots@ =~= old(self).slots@.update(
                s as int,
                Slot { generation: st.gens[s as int], ..old(self).slots@[s as int] },
            ));
            assert(slot_gens(self.slots@) =~= st.gens);
        }
    }
}

/// The live slots form a finite set.
proof fn lemma_orders_finite(sl: Seq<Slot>)
    ensures
        slot_orders(sl).dom().finite(),
{
    let all = Seq::new(sl.len(), |i: int| i as u32);
    assert(slot_orders(sl).dom().subset_of(all.to_set())) by {
        assert forall|x: u32| slot_orders(sl).dom().contains(x) implies all.to_set().contains(x) by {
            assert(all[x as int] == x);
        }
    }
    all.lemma_cardinality_of_set();
    vstd::set_lib::lemma_len_subset(slot_orders(sl).dom(), all.to_set());
}

/// A level holds at most `u32::MAX` orders of at most `u32::MAX` lots each, so its total
/// fits in a `u64`.
proof fn lemma_level_total_fits(q: Seq<u32>, sl: Seq<Slot>, side: Side, p: int)
    requires
        queue_ok(q, sl, side, p),
        sl.len() <= u32::MAX,
    ensures
        0 <= sum_rem(sl, q) <= u64::MAX,
{
    assert forall|i: int| 0 <= i < q.len() implies #[trigger] q[i] < sl.len() as int by {
        assert(entry_ok(q, sl, side, p, i));
        lemma_entry(q, sl, side, p, i);
    }
    lemma_distinct_len(q, sl.len() as int);
    lemma_sum_bound(sl, q, u32::MAX as int);
    assert(q.len() * (u32::MAX as int) <= u64::MAX) by (nonlinear_arith)
        requires
            q.len() <= u32::MAX,
    ;
}

proof fn lemma_remove_rep(a: FastBook, b: FastBook, sl1: Seq<Slot>, s: u32, side: Side, p: int, k: int)
    requires
        a.rep_ok(),
        0 <= p < MAX_TICKS,
        s < a.slots@.len(),
        in_level(a.slots@[s as int], side, p),
        0 <= k < a.side_of_book(side).levels@[p].queue@.len(),
        a.side_of_book(side).levels@[p].queue@[k] == s,
        b.cfg == a.cfg,
        b.side_of_book(opposite_of(side)) == a.side_of_book(opposite_of(side)),
        b.side_of_book(side).levels@.len() == MAX_TICKS,
        forall|r: int| 0 <= r < MAX_TICKS && r != p ==> #[trigger] b.side_of_book(side).levels@[r] == a.side_of_book(side).levels@[r],
        forall|r: int| 0 <= r < MAX_TICKS && r != p ==> #[trigger] bit(b.side_of_book(side), r) == bit(a.side_of_book(side), r),
        b.side_of_book(side).levels@[p].queue@ == a.side_of_book(side).levels@[p].queue@.remove(k),
        level_ok(b.side_of_book(side), sl1, side, p),
        unlinked(a.side_of_book(side).levels@[p].queue@, a.slots@, sl1, k),
        b.slots@ == sl1.update(s as int, Slot { generation: b.slots@[s as int].generation, ..sl1[s as int] }),
        b.slots@[s as int].generation % 2 == 0,
        b.live == a.live - 1,
    ensures
        b.rep_ok(),
        slot_orders(b.slots@) == slot_orders(a.slots@).remove(s),
{
    let q = a.side_of_book(side).levels@[p].queue@;
    let sl0 = a.slots@;
    let sl2 = b.slots@;
    assert(level_ok(a.side_of_book(side), sl0, side, p));
    lemma_entry(q, sl0, side, p, k);
    if k > 0 {
        lemma_entry(q, sl0, side, p, k - 1);
    }
    if k + 1 < q.len() {
        lemma_entry(q, sl0, side, p, k + 1);
    }
    let q2 = q.remove(k);
    assert(!q2.contains(s)) by {
        if q2.contains(s) {
            let i = choose|i: int| 0 <= i < q2.len() && q2[i] == s;
            let j = if i < k { i } else { i + 1 };
            assert(q2[i] == q[j]);
            assert(q[j] != q[k]);
        }
    }
    assert forall|i: int| 0 <= i < q2.len() implies sl2[#[trigger] q2[i] as int] == sl1[q2[i] as int] by {
        assert(q2[i] != s);
        assert(entry_ok(q2, sl1, side, p, i));
        lemma_entry(q2, sl1, side, p, i);
    }
    lemma_level_frame(b.side_of_book(side), b.side_of_book(side), sl1, sl2, side, p);
    assert forall|t: int| 0 <= t < sl0.len() && sl2[t] != sl0[t] implies !live(sl0[t]) || in_level(#[trigger] sl0[t], side, p) by {}
    assert forall|sd: Side, r: int| #![trigger side_book(b.bids, b.asks, sd).levels@[r]]
        0 <= r < MAX_TICKS && (sd != side || r != p) implies side_book(b.bids, b.asks, sd).levels@[r] == side_book(a.bids, a.asks, sd).levels@[r] by {
        if sd != side {
            assert(sd == opposite_of(side));
        }
    }
    assert forall|sd: Side, r: int| #![trigger bit(side_book(b.bids, b.asks, sd), r)]
        0 <= r < MAX_TICKS && (sd != side || r != p) implies bit(side_book(b.bids, b.asks, sd), r) == bit(side_book(a.bids, a.asks, sd), r) by {
        if sd != side {
            assert(sd == opposite_of(side));
        }
    }
    lemma_levels_frame(a.bids, a.asks, sl0, b.bids, b.asks, sl2, side, p);
    assert forall|sd: Side, r: int| 0 <= r < MAX_TICKS implies #[trigger] level_ok(side_book(b.bids, b.asks, sd), sl2, sd, r) by {
        if sd == side && r == p {
        }
    }
    assert(b.side_of_book(opposite_of(side)).levels@.len() == MAX_TICKS) by {
        assert(levels_ok(a.bids, a.asks, sl0));
        if side == Side::Buy {} else {}
    }
    assert(levels_ok(b.bids, b.asks, sl2)) by {
        if side == Side::Buy {} else {}
    }
    assert forall|t: int| 0 <= t < sl2.len() implies #[trigger] placed(b.bids, b.asks, sl2, t) by {
        assert(placed(a.bids, a.asks, sl0, t));
        if t != s {
            let x = sl0[t];
            if live(x) {
                let st = side_from(x.side);
                let pt = x.price as int;
                let qt = side_book(a.bids, a.asks, st).levels@[pt].queue@;
                assert(qt.contains(t as u32));
                if st == side && pt == p {
                    let j = choose|j: int| 0 <= j < q.len() && q[j] == t as u32;
                    assert(j != k);
                    let i = if j < k { j } else { j - 1 };
                    assert(q2[i] == q[j]);
                } else if st == side {
                } else {
                    assert(st == opposite_of(side));
                }
            }
        }
    }
    assert forall|t: int| 0 <= t < sl0.len() && t != s implies same_data(#[trigger] sl2[t], sl0[t]) by {}
    lemma_view_update(sl0, sl2, s);
    assert(slot_orders(sl0).contains_key(s));
    lemma_orders_finite(sl0);
    assert(slot_orders(sl0).dom().remove(s).len() == slot_orders(sl0).dom().len() - 1);
    assert(slot_orders(sl2).dom() == slot_orders(sl0).dom().remove(s));
}

impl FastBook {
    /// Takes the order in slot `s` off its level and releases the slot.
    fn remove(&mut self, s: u32)
        requires
            old(self).rep_ok(),
            s < old(self).slots@.len(),
            live(old(self).slots@[s as int]),
            old(self).retired < u32::MAX,
        ensures
            final(self).rep_ok(),
            final(self).cfg == old(self).cfg,
            final(self).next_seq == old(self).next_seq,
            final(self).view_of() == crate::model::release(
                old(self).cfg,
                BookView { orders: old(self).view_of().orders.remove(s), ..old(self).view_of() },
                s,
            ),
    {
        let slot = self.slots[s as usize];
        let ghost side = side_from(slot.side);
        let ghost p = slot.price as int;
        let ghost q = self.side_of_book(side).levels@[p].queue@;
        proof {
            assert(placed(self.bids, self.asks, self.slots@, s as int));
            assert(q.contains(s));
            assert(level_ok(self.side_of_book(side), self.slots@, side, p));
            assert(slot_orders(self.slots@).contains_key(s));
            let d = slot_orders(self.slots@).dom();
            assert(d.contains(s));
            lemma_orders_finite(self.slots@);
            assert(d.remove(s).len() == d.len() - 1);
        }
        let ghost k = choose|k: int| 0 <= k < q.len() && q[k] == s;
        let ghost a = *self;
        match side_of(slot.side) {
            Side::Buy => level_remove(&mut self.bids, &mut self.slots, slot.price, s, Ghost(Side::Buy), Ghost(k)),
            Side::Sell => level_remove(&mut self.asks, &mut self.slots, slot.price, s, Ghost(Side::Sell), Ghost(k)),
        }
        let ghost sl1 = self.slots@;
        proof {
            assert(unlinked(q, a.slots@, sl1, k));
            assert forall|t: int| 0 <= t < sl1.len() implies #[trigger] same_data(sl1[t], a.slots@[t]) by {}
            lemma_view_frame(a.slots@, sl1);
        }
        self.release(s);
        proof {
            assert(self.slots@ =~= sl1.update(s as int, Slot { generation: self.slots@[s as int].generation, ..sl1[s as int] }));
            lemma_remove_rep(a, *self, sl1, s, side, p, k);
            assert(self.view_of() =~= crate::model::release(
                old(self).cfg,
                BookView { orders: old(self).view_of().orders.remove(s), ..old(self).view_of() },
                s,
            ));
        }
    }
}

/// Changing the lots of the live order in slot `s`, with its level total adjusted to
/// match, keeps the representation.
proof fn lemma_adjust_rep(a: FastBook, b: FastBook, s: u32, side: Side, p: int, x: Slot)
    requires
        a.rep_ok(),
        0 <= p < MAX_TICKS,
        s < a.slots@.len(),
        in_level(a.slots@[s as int], side, p),
        x == (Slot { remaining: x.remaining, filled: x.filled, ..a.slots@[s as int] }),
        b.slots@ == a.slots@.update(s as int, x),
        b.cfg == a.cfg,
        b.live == a.live,
        b.side_of_book(opposite_of(side)) == a.side_of_book(opposite_of(side)),
        b.side_of_book(side).bits == a.side_of_book(side).bits,
        b.side_of_book(side).levels@ == a.side_of_book(side).levels@.update(
            p,
            Level {
                total: (a.side_of_book(side).levels@[p].total - a.slots@[s as int].remaining + x.remaining) as u64,
                ..a.side_of_book(side).levels@[p]
            },
        ),
    ensures
        b.rep_ok(),
        slot_orders(b.slots@) == slot_orders(a.slots@).insert(s, sview(x)),
        slot_gens(b.slots@) == slot_gens(a.slots@),
{
    let sl0 = a.slots@;
    let sl2 = b.slots@;
    let bs = a.side_of_book(side);
    let bs2 = b.side_of_book(side);
    let q = bs.levels@[p].queue@;
    assert(level_ok(bs, sl0, side, p));
    assert(placed(a.bids, a.asks, sl0, s as int));
    assert(q.contains(s));
    let k = choose|k: int| 0 <= k < q.len() && q[k] == s;
    assert forall|i: int| 0 <= i < q.len() && i != k implies #[trigger] sl2[q[i] as int].remaining == sl0[q[i] as int].remaining by {
        assert(q[i] != q[k]);
        assert(entry_ok(q, sl0, side, p, i));
        lemma_entry(q, sl0, side, p, i);
    }
    lemma_sum_change(sl0, sl2, q, k);
    assert(level_ok(bs2, sl2, side, p)) by {
        assert(queue_ok(q, sl2, side, p)) by {
            assert forall|i: int| 0 <= i < q.len() implies #[trigger] entry_ok(q, sl2, side, p, i) by {
                assert(entry_ok(q, sl0, side, p, i));
                lemma_entry(q, sl0, side, p, i);
                reveal(entry_ok);
            }
            assert forall|i: int, j: int| #![trigger q[i], q[j]] 0 <= i < j < q.len() implies sl2[q[i] as int].seq@ < sl2[q[j] as int].seq@ by {
                assert(entry_ok(q, sl0, side, p, i));
                lemma_entry(q, sl0, side, p, i);
                assert(entry_ok(q, sl0, side, p, j));
                lemma_entry(q, sl0, side, p, j);
            }
        }
        lemma_level_total_fits(q, sl2, side, p);
        assert forall|i: int| 0 <= i < q.len() implies #[trigger] entry_ok(q, sl2, side, p, i) by {
            assert(entry_ok(q, sl0, side, p, i));
            lemma_entry(q, sl0, side, p, i);
            reveal(entry_ok);
        }
        assert forall|i: int, j: int| #![trigger q[i], q[j]] 0 <= i < j < q.len() implies sl2[q[i] as int].seq@ < sl2[q[j] as int].seq@ by {
            assert(entry_ok(q, sl0, side, p, i));
            lemma_entry(q, sl0, side, p, i);
            assert(entry_ok(q, sl0, side, p, j));
            lemma_entry(q, sl0, side, p, j);
        }
        assert(bit(bs2, p) == bit(bs, p));
    }
    assert forall|t: int| 0 <= t < sl0.len() && sl2[t] != sl0[t] implies !live(sl0[t]) || in_level(#[trigger] sl0[t], side, p) by {}
    assert forall|sd: Side, r: int| #![trigger side_book(b.bids, b.asks, sd).levels@[r]]
        0 <= r < MAX_TICKS && (sd != side || r != p) implies side_book(b.bids, b.asks, sd).levels@[r] == side_book(a.bids, a.asks, sd).levels@[r] by {
        if sd != side {
            assert(sd == opposite_of(side));
        }
    }
    assert forall|sd: Side, r: int| #![trigger bit(side_book(b.bids, b.asks, sd), r)]
        0 <= r < MAX_TICKS && (sd != side || r != p) implies bit(side_book(b.bids, b.asks, sd), r) == bit(side_book(a.bids, a.asks, sd), r) by {
        if sd != side {
            assert(sd == opposite_of(side));
        }
    }
    assert(levels_ok(a.bids, a.asks, sl0));
    lemma_levels_frame(a.bids, a.asks, sl0, b.bids, b.asks, sl2, side, p);
    assert(levels_ok(b.bids, b.asks, sl2)) by {
        assert forall|sd: Side, r: int| 0 <= r < MAX_TICKS implies #[trigger] level_ok(side_book(b.bids, b.asks, sd), sl2, sd, r) by {
            if sd == side && r == p {
            }
        }
        if side == Side::Buy {} else {}
    }
    assert forall|t: int| 0 <= t < sl2.len() implies #[trigger] placed(b.bids, b.asks, sl2, t) by {
        assert(placed(a.bids, a.asks, sl0, t));
        let x0 = sl0[t];
        if live(x0) {
            let st = side_from(x0.side);
            if st != side {
                assert(st == opposite_of(side));
            }
        }
    }
    assert forall|t: int| 0 <= t < sl0.len() && t != s implies same_data(#[trigger] sl2[t], sl0[t]) by {}
    lemma_view_update(sl0, sl2, s);
    assert(slot_orders(sl0).contains_key(s));
    assert(slot_orders(sl0).insert(s, sview(x)).dom() =~= slot_orders(sl0).dom());
    assert(slot_gens(sl2) =~= slot_gens(sl0));
}

impl FastBook {
    fn cancel<S: EventSink>(&mut self, env: &Envelope, id: OrderId, out: &mut S)
        requires
            old(self).inv(),
        ensures
            final(self).inv(),
            final(self).cfg == old(self).cfg,
            final(self).next_seq == old(self).next_seq,
            final(self).view_of() == crate::model::cancel(old(self).cfg, old(self).view_of(), *env, id).0,
            final(out).events() == old(out).events() + crate::model::cancel(old(self).cfg, old(self).view_of(), *env, id).1,
    {
        match self.lookup(id, env.account) {
            None => {
                out.emit(Event::Rejected { req: env.req, reason: RejectReason::UnknownOrStaleId });
            },
            Some(s) => {
                let remaining = self.slots[s as usize].remaining;
                proof {
                    lemma_remove_order_inv(self.cfg, self.view_of(), s);
                    self.lemma_retired_room(s);
                }
                self.remove(s);
                out.emit(
                    Event::Cancelled {
                        req: env.req,
                        id: Some(id),
                        qty: Qty(remaining),
                        reason: CancelReason::User,
                    },
                );
            },
        }
    }

    /// A live order leaves room for one more retired slot.
    proof fn lemma_retired_room(&self, s: u32)
        requires
            self.inv(),
            self.view_of().orders.contains_key(s),
        ensures
            self.retired < u32::MAX,
            s < self.slots@.len(),
            live(self.slots@[s as int]),
    {
        let d = self.view_of().orders.dom();
        assert(d.contains(s));
        assert(d.remove(s).len() == d.len() - 1);
    }

    fn reduce<S: EventSink>(&mut self, env: &Envelope, id: OrderId, total_qty: Qty, out: &mut S)
        requires
            old(self).inv(),
        ensures
            final(self).inv(),
            final(self).cfg == old(self).cfg,
            final(self).next_seq == old(self).next_seq,
            final(self).view_of() == crate::model::reduce(old(self).cfg, old(self).view_of(), *env, id, total_qty).0,
            final(out).events() == old(out).events() + crate::model::reduce(old(self).cfg, old(self).view_of(), *env, id, total_qty).1,
    {
        let req = env.req;
        let s = match self.lookup(id, env.account) {
            None => {
                out.emit(Event::Rejected { req, reason: RejectReason::UnknownOrStaleId });
                return;
            },
            Some(s) => s,
        };
        let ghost st = self.view_of();
        proof {
            self.lemma_retired_room(s);
        }
        let slot = self.slots[s as usize];
        let filled = slot.filled;
        let remaining = slot.remaining;
        let price = slot.price;
        let total = total_qty.0 as u64;
        if total <= filled as u64 {
            proof {
                lemma_remove_order_inv(self.cfg, st, s);
            }
            self.remove(s);
            out.emit(
                Event::Cancelled { req, id: Some(id), qty: Qty(remaining), reason: CancelReason::ReduceToZero },
            );
        } else if total > filled as u64 + remaining as u64 {
            out.emit(Event::Rejected { req, reason: RejectReason::InvalidChange });
        } else {
            let new_remaining = total_qty.0 - filled;
            let ghost a = *self;
            let ghost side = side_from(slot.side);
            proof {
                assert(placed(self.bids, self.asks, self.slots@, s as int));
                let q = self.side_of_book(side).levels@[price as int].queue@;
                assert(level_ok(self.side_of_book(side), self.slots@, side, price as int));
                let k = choose|k: int| 0 <= k < q.len() && q[k] == s;
                lemma_sum_remove(self.slots@, q, k);
                lemma_sum_bound(self.slots@, q.remove(k), u32::MAX as int);
            }
            match side_of(slot.side) {
                Side::Buy => level_sub_qty(&mut self.bids, price, remaining - new_remaining),
                Side::Sell => level_sub_qty(&mut self.asks, price, remaining - new_remaining),
            }
            self.slots[s as usize].remaining = new_remaining;
            proof {
                let x = Slot { remaining: new_remaining, ..slot };
                assert(self.slots@ =~= a.slots@.update(s as int, x));
                lemma_adjust_rep(a, *self, s, side, price as int, x);
                lemma_update_order_inv(self.cfg, st, s, sview(x));
                assert(self.view_of() =~= BookView { orders: st.orders.insert(s, sview(x)), ..st });
            }
            out.emit(
                Event::Reduced { req, id, filled: Qty(filled), remaining: Qty(new_remaining) },
            );
        }
    }
}

impl FastBook {
    /// Fills `fill` lots of the maker in slot `s`, the head of the level at `p` on the
    /// makers' `side`; a maker left with nothing is taken off the book. Returns the maker's
    /// open lots after the fill.
    fn fill_maker(&mut self, side: Side, p: u16, s: u32, fill: u32) -> (left: u32)
        requires
            old(self).inv(),
            p < MAX_TICKS,
            old(self).view_of().orders.contains_key(s),
            old(self).view_of().orders[s].side == side,
            old(self).view_of().orders[s].price == p,
            1 <= fill <= old(self).view_of().orders[s].remaining,
        ensures
            final(self).inv(),
            final(self).cfg == old(self).cfg,
            final(self).next_seq == old(self).next_seq,
            left == old(self).view_of().orders[s].remaining - fill,
            ({
                let st = old(self).view_of();
                let m = st.orders[s];
                if left == 0 {
                    final(self).view_of() == remove_order(old(self).cfg, st, s)
                } else {
                    final(self).view_of() == (BookView {
                        orders: st.orders.insert(
                            s,
                            OrderView { remaining: left, filled: (m.filled + fill) as u32, ..m },
                        ),
                        ..st
                    })
                }
            }),
    {
        let ghost st = self.view_of();
        let ghost a = *self;
        proof {
            self.lemma_retired_room(s);
            assert(placed(self.bids, self.asks, self.slots@, s as int));
            let q = self.side_of_book(side).levels@[p as int].queue@;
            assert(level_ok(self.side_of_book(side), self.slots@, side, p as int));
            let k = choose|k: int| 0 <= k < q.len() && q[k] == s;
            lemma_sum_remove(self.slots@, q, k);
            lemma_sum_bound(self.slots@, q.remove(k), u32::MAX as int);
        }
        let sl = self.slots[s as usize];
        let left = sl.remaining - fill;
        self.slots[s as usize].remaining = left;
        self.slots[s as usize].filled = sl.filled + fill;
        match side {
            Side::Buy => level_sub_qty(&mut self.bids, p, fill),
            Side::Sell => level_sub_qty(&mut self.asks, p, fill),
        }
        let ghost x = Slot { remaining: left, filled: (sl.filled + fill) as u32, ..sl };
        proof {
            assert(self.slots@ =~= a.slots@.update(s as int, x));
            lemma_adjust_rep(a, *self, s, side, p as int, x);
        }
        if left == 0 {
            let ghost b = *self;
            self.remove(s);
            proof {
                lemma_remove_order_inv(self.cfg, st, s);
                assert(b.view_of().orders.remove(s) =~= st.orders.remove(s));
                assert(self.view_of() =~= remove_order(self.cfg, st, s));
            }
        } else {
            proof {
                let m2 = OrderView { remaining: left, filled: (sl.filled + fill) as u32, ..st.orders[s] };
                assert(sview(x) == m2);
                lemma_update_order_inv(self.cfg, st, s, m2);
                assert(self.view_of() =~= BookView { orders: st.orders.insert(s, m2), ..st });
            }
        }
        left
    }
}

/// After a free slot `s` is filled with a new order and linked behind the tail of its
/// level, the representation holds and the book gains exactly that order.
proof fn lemma_place_rep(a: FastBook, b: FastBook, s: u32, side: Side, p: int, x: Slot)
    requires
        a.rep_ok(),
        0 <= p < MAX_TICKS,
        s < a.slots@.len(),
        !live(a.slots@[s as int]),
        in_level(x, side, p),
        b.cfg == a.cfg,
        b.live == a.live + 1,
        b.slots@.len() == a.slots@.len(),
        b.side_of_book(opposite_of(side)) == a.side_of_book(opposite_of(side)),
        b.side_of_book(side).levels@.len() == MAX_TICKS,
        forall|r: int| 0 <= r < MAX_TICKS && r != p ==> #[trigger] b.side_of_book(side).levels@[r] == a.side_of_book(side).levels@[r],
        forall|r: int| 0 <= r < MAX_TICKS && r != p ==> #[trigger] bit(b.side_of_book(side), r) == bit(a.side_of_book(side), r),
        b.side_of_book(side).levels@[p].queue@ == a.side_of_book(side).levels@[p].queue@.push(s),
        level_ok(b.side_of_book(side), b.slots@, side, p),
        ({
            let q = a.side_of_book(side).levels@[p].queue@;
            let tail = if q.len() == 0 { NIL } else { q.last() };
            &&& forall|t: int| 0 <= t < a.slots@.len() && t != s && t != tail ==> #[trigger] b.slots@[t] == a.slots@[t]
            &&& b.slots@[s as int] == Slot { prev: tail, next: NIL, ..x }
            &&& tail != NIL ==> b.slots@[tail as int] == Slot { next: s, ..a.slots@[tail as int] }
        }),
    ensures
        b.rep_ok(),
        slot_orders(b.slots@) == slot_orders(a.slots@).insert(s, sview(x)),
        slot_gens(b.slots@) == slot_gens(a.slots@).update(s as int, x.generation),
{
    let sl0 = a.slots@;
    let sl2 = b.slots@;
    let q = a.side_of_book(side).levels@[p].queue@;
    let tail = if q.len() == 0 { NIL } else { q.last() };
    assert(level_ok(a.side_of_book(side), sl0, side, p));
    if q.len() > 0 {
        lemma_entry(q, sl0, side, p, q.len() - 1);
    }
    assert forall|t: int| 0 <= t < sl0.len() && sl2[t] != sl0[t] implies !live(sl0[t]) || in_level(#[trigger] sl0[t], side, p) by {}
    assert forall|sd: Side, r: int| #![trigger side_book(b.bids, b.asks, sd).levels@[r]]
        0 <= r < MAX_TICKS && (sd != side || r != p) implies side_book(b.bids, b.asks, sd).levels@[r] == side_book(a.bids, a.asks, sd).levels@[r] by {
        if sd != side {
            assert(sd == opposite_of(side));
        }
    }
    assert forall|sd: Side, r: int| #![trigger bit(side_book(b.bids, b.asks, sd), r)]
        0 <= r < MAX_TICKS && (sd != side || r != p) implies bit(side_book(b.bids, b.asks, sd), r) == bit(side_book(a.bids, a.asks, sd), r) by {
        if sd != side {
            assert(sd == opposite_of(side));
        }
    }
    assert(levels_ok(a.bids, a.asks, sl0));
    lemma_levels_frame(a.bids, a.asks, sl0, b.bids, b.asks, sl2, side, p);
    assert(levels_ok(b.bids, b.asks, sl2)) by {
        assert forall|sd: Side, r: int| 0 <= r < MAX_TICKS implies #[trigger] level_ok(side_book(b.bids, b.asks, sd), sl2, sd, r) by {
            if sd == side && r == p {
            }
        }
        if side == Side::Buy {} else {}
    }
    assert forall|t: int| 0 <= t < sl2.len() implies #[trigger] placed(b.bids, b.asks, sl2, t) by {
        assert(placed(a.bids, a.asks, sl0, t));
        if t == s {
            assert(b.side_of_book(side).levels@[p].queue@[q.len() as int] == s);
        } else {
            let x0 = sl0[t];
            if live(x0) {
                let st = side_from(x0.side);
                let pt = x0.price as int;
                if st == side && pt == p {
                    let j = choose|j: int| 0 <= j < q.len() && q[j] == t as u32;
                    assert(q.push(s)[j] == q[j]);
                } else if st != side {
                    assert(st == opposite_of(side));
                }
            }
        }
    }
    assert forall|t: int| 0 <= t < sl0.len() && t != s implies same_data(#[trigger] sl2[t], sl0[t]) by {}
    lemma_view_update(sl0, sl2, s);
    assert(sview(sl2[s as int]) == sview(x));
    lemma_orders_finite(sl0);
    assert(!slot_orders(sl0).contains_key(s));
    assert(slot_orders(sl2).dom() == slot_orders(sl0).dom().insert(s));
}

impl FastBook {
    /// Rests a new order of `remaining` lots at `price` on a free slot, behind every
    /// order already at that price; no slot, no order.
    fn place_new(&mut self, account: AccountId, side: Side, price: Price, remaining: u32) -> (r: Option<u32>)
        requires
            old(self).inv(),
            remaining >= 1,
            remaining <= old(self).cfg.max_order_qty.0,
            price_in_range(old(self).cfg, price.0),
            forall|t: u32|
                #![trigger old(self).view_of().orders.contains_key(t)]
                old(self).view_of().orders.contains_key(t) && old(self).view_of().orders[t].side == opposite_of(side) ==> (if side == Side::Buy {
                    price.0 < old(self).view_of().orders[t].price
                } else {
                    old(self).view_of().orders[t].price < price.0
                }),
        ensures
            final(self).inv(),
            final(self).cfg == old(self).cfg,
            old(self).free@.len() == 0 ==> r is None && final(self).view_of() == old(self).view_of(),
            old(self).free@.len() > 0 ==> {
                let st = old(self).view_of();
                let s = st.free.last();
                let st1 = take_slot(st);
                let o = OrderView { account, side, price: price.0, remaining, filled: 0, seq: st1.next_seq };
                &&& r == Some(s)
                &&& final(self).view_of() == BookView { orders: st1.orders.insert(s, o), next_seq: st1.next_seq + 1, ..st1 }
                &&& s < final(self).slots@.len()
            },
    {
        let ghost st = self.view_of();
        let ghost a = *self;
        let s = match self.alloc_slot() {
            None => {
                return None;
            },
            Some(s) => s,
        };
        let ghost o = OrderView { account, side, price: price.0, remaining, filled: 0, seq: st.next_seq };
        proof {
            lemma_rest_inv(self.cfg, st, o);
        }
        let g = self.slots[s as usize].generation;
        let x = Slot {
            generation: g,
            prev: NIL,
            next: NIL,
            remaining,
            filled: 0,
            account,
            price: price.0,
            side: side_code(side),
            seq: Ghost(st.next_seq),
        };
        let ghost p = price.0 as int;
        let ghost q = a.side_of_book(side).levels@[p].queue@;
        proof {
            assert(level_ok(a.side_of_book(side), a.slots@, side, p));
            assert(!q.contains(s)) by {
                if q.contains(s) {
                    let j = choose|j: int| 0 <= j < q.len() && q[j] == s;
                    assert(entry_ok(q, a.slots@, side, p, j));
                    lemma_entry(q, a.slots@, side, p, j);
                }
            }
        }
        self.slots.set(s as usize, x);
        proof {
            let sl1 = self.slots@;
            assert forall|i: int| 0 <= i < q.len() implies sl1[#[trigger] q[i] as int] == a.slots@[q[i] as int] by {
                assert(entry_ok(q, a.slots@, side, p, i));
                lemma_entry(q, a.slots@, side, p, i);
            }
            lemma_level_frame(a.side_of_book(side), a.side_of_book(side), a.slots@, sl1, side, p);
            assert forall|i: int| 0 <= i < q.len() implies sl1[#[trigger] q[i] as int].seq@ < sl1[s as int].seq@ by {
                assert(entry_ok(q, a.slots@, side, p, i));
                lemma_entry(q, a.slots@, side, p, i);
                assert(st.orders.contains_key(q[i]));
            }
            assert forall|i: int| 0 <= i < q.push(s).len() implies #[trigger] q.push(s)[i] < a.slots@.len() as int by {
                if i < q.len() {
                    assert(entry_ok(q, a.slots@, side, p, i));
                    lemma_entry(q, a.slots@, side, p, i);
                }
            }
            assert(q.push(s).no_duplicates()) by {
                assert forall|i: int, j: int| 0 <= i < q.push(s).len() && 0 <= j < q.push(s).len() && i != j implies q.push(s)[i] != q.push(s)[j] by {
                    if i < q.len() && j < q.len() {
                    } else if i < q.len() {
                        assert(q.contains(q[i]));
                    } else {
                        assert(q.contains(q[j]));
                    }
                }
            }
            lemma_distinct_len(q.push(s), a.slots@.len() as int);
            lemma_sum_bound(a.slots@, q, u32::MAX as int);
            assert(q.len() * (u32::MAX as int) + u32::MAX <= u64::MAX) by (nonlinear_arith)
                requires
                    q.len() + 1 <= u32::MAX,
            ;
        }
        let ghost b1 = *self;
        match side {
            Side::Buy => level_push(&mut self.bids, &mut self.slots, price.0, s, Ghost(Side::Buy)),
            Side::Sell => level_push(&mut self.asks, &mut self.slots, price.0, s, Ghost(Side::Sell)),
        }
        self.next_seq = Ghost(st.next_seq + 1);
        proof {
            lemma_place_rep(a, *self, s, side, p, x);
            let st1 = take_slot(st);
            assert(self.view_of() =~= BookView { orders: st1.orders.insert(s, o), next_seq: st1.next_seq + 1, ..st1 });
        }
        Some(s)
    }
}

impl FastBook {
    fn new_order<S: EventSink>(
        &mut self,
        env: &Envelope,
        side: Side,
        qty: Qty,
        kind: OrderKind,
        out: &mut S,
    )
        requires
            old(self).inv(),
        ensures
            final(self).inv(),
            final(self).cfg == old(self).cfg,
            final(self).view_of() == crate::model::new_order(old(self).cfg, old(self).view_of(), *env, side, qty, kind).0,
            final(out).events() == old(out).events() + crate::model::new_order(old(self).cfg, old(self).view_of(), *env, side, qty, kind).1,
    {
        let price: Option<Price> = match kind {
            OrderKind::Limit { price, .. } => Some(price),
            OrderKind::PostOnly { price } => Some(price),
            OrderKind::Market { protection } => protection,
        };
        let bad_price = match price {
            Some(p) => !self.cfg.price_ok(p),
            None => false,
        };
        if bad_price {
            out.emit(Event::Rejected { req: env.req, reason: RejectReason::InvalidPrice });
            return;
        }
        if !self.cfg.qty_ok(qty) {
            out.emit(Event::Rejected { req: env.req, reason: RejectReason::InvalidQty });
            return;
        }
        self.submit(env, side, qty.0, kind, out);
    }

    fn submit<S: EventSink>(
        &mut self,
        env: &Envelope,
        side: Side,
        qty: u32,
        kind: OrderKind,
        out: &mut S,
    )
        requires
            old(self).inv(),
            qty <= old(self).cfg.max_order_qty.0,
            rests_spec(kind) ==> price_in_range(old(self).cfg, limit_for(old(self).cfg, side, kind)),
        ensures
            final(self).inv(),
            final(self).cfg == old(self).cfg,
            final(self).view_of() == submit(old(self).cfg, old(self).view_of(), *env, side, qty, kind).0,
            final(out).events() == old(out).events() + submit(old(self).cfg, old(self).view_of(), *env, side, qty, kind).1,
    {
        let req = env.req;
        let limit = self.cfg.limit_of(side, kind);
        let crossing = self.marketable(side, limit);
        let full = self.free.len() == 0;
        match kind {
            OrderKind::PostOnly { .. } => {
                if crossing {
                    out.emit(Event::Rejected { req, reason: RejectReason::PostOnlyWouldCross });
                    return;
                }
                if full {
                    out.emit(Event::Rejected { req, reason: RejectReason::BookFull });
                    return;
                }
            },
            OrderKind::Limit { tif: Tif::Gtc, .. } => {
                if full && !crossing {
                    out.emit(Event::Rejected { req, reason: RejectReason::BookFull });
                    return;
                }
            },
            _ => {},
        }
        let ghost cfg = self.cfg;
        let ghost st0 = self.view_of();
        let ghost out0 = out.events();
        let ghost mut evs: Seq<Event> = Seq::empty();
        let maker_side = side.opposite();
        let mut remaining = qty;
        loop
            invariant_except_break
                self.inv(),
                self.cfg == cfg,
                cfg == old(self).cfg,
                req == env.req,
                limit.0 == limit_for(cfg, side, kind),
                !((kind is PostOnly) && marketable(st0.orders, side, limit.0)),
                !((kind is PostOnly) && st0.free.len() == 0),
                !((kind matches OrderKind::Limit { tif: Tif::Gtc, .. }) && st0.free.len() == 0
                    && !marketable(st0.orders, side, limit.0)),
                st0 == old(self).view_of(),
                out0 == old(out).events(),
                self.next_seq == st0.next_seq,
                maker_side == opposite_of(side),
                out.events() == out0 + evs,
                match_loop(cfg, st0, *env, side, limit.0, qty, Seq::empty()) == match_loop(
                    cfg,
                    self.view_of(),
                    *env,
                    side,
                    limit.0,
                    remaining,
                    evs,
                ),
            ensures
                self.inv(),
                self.cfg == cfg,
                self.next_seq == st0.next_seq,
                out.events() == out0 + evs,
                match_loop(cfg, st0, *env, side, limit.0, qty, Seq::empty()) == (MatchOutcome {
                    st: self.view_of(),
                    events: evs,
                    remaining,
                    self_trade: false,
                }),
            decreases remaining,
        {
            if remaining == 0 {
                break;
            }
            let p = match self.best(maker_side) {
                None => {
                    break;
                },
                Some(p) => p,
            };
            if !side.crosses(limit, Price(p)) {
                break;
            }
            let ghost st = self.view_of();
            let s = match maker_side {
                Side::Buy => self.bids.levels[p as usize].head,
                Side::Sell => self.asks.levels[p as usize].head,
            };
            proof {
                assert(level_ok(side_book(self.bids, self.asks, maker_side), self.slots@, maker_side, p as int));
                assert(s == self.side_of_book(maker_side).levels@[p as int].queue@[0]);
                assert(st.orders.contains_key(s));
            }
            let maker = self.slots[s as usize];
            if maker.account == env.account {
                out.emit(Event::Cancelled { req, id: None, qty: Qty(remaining), reason: CancelReason::SelfTrade });
                return;
            }
            let fill = if remaining <= maker.remaining { remaining } else { maker.remaining };
            let ghost rem0 = remaining;
            let ghost evs0 = evs;
            remaining = remaining - fill;
            let maker_id = OrderId::new(s, maker.generation);
            let left = self.fill_maker(maker_side, p, s, fill);
            let trade = Event::Trade {
                taker_req: req,
                taker_side: side,
                maker_id,
                price: Price(p),
                qty: Qty(fill),
                maker_remaining: Qty(left),
                ts: env.ts,
            };
            out.emit(trade);
            proof {
                evs = evs.push(trade);
            }
            if left == 0 {
                out.emit(Event::MakerFilled { id: maker_id });
                proof {
                    evs = evs.push(Event::MakerFilled { id: maker_id });
                }
            }
            proof {
                assert(fill == min_u32(rem0, st.orders[s].remaining));
                assert(maker_id == id_in(st, s));
                lemma_match_loop_unfold(cfg, st, *env, side, limit.0, rem0, evs0, s);
            }
        }
        proof {
            lemma_match_loop(cfg, st0, *env, side, limit.0, qty, Seq::empty());
        }
        if remaining == 0 {
            out.emit(Event::Filled { req });
        } else if !rests(kind) {
            out.emit(Event::Cancelled { req, id: None, qty: Qty(remaining), reason: CancelReason::Unfilled });
        } else {
            match self.place_new(env.account, side, limit, remaining) {
                Some(s) => {
                    let id = self.id_of(s);
                    out.emit(Event::Rested { req, id, qty: Qty(remaining) });
                },
                None => {
                    out.emit(Event::Cancelled { req, id: None, qty: Qty(remaining), reason: CancelReason::CapacityExhausted });
                },
            }
        }
    }

    fn replace<S: EventSink>(
        &mut self,
        env: &Envelope,
        id: OrderId,
        price: Price,
        total_qty: Qty,
        post_only: bool,
        out: &mut S,
    )
        requires
            old(self).inv(),
        ensures
            final(self).inv(),
            final(self).cfg == old(self).cfg,
            final(self).view_of() == crate::model::replace(old(self).cfg, old(self).view_of(), *env, id, price, total_qty, post_only).0,
            final(out).events() == old(out).events() + crate::model::replace(old(self).cfg, old(self).view_of(), *env, id, price, total_qty, post_only).1,
    {
        let req = env.req;
        if !self.cfg.price_ok(price) {
            out.emit(Event::Rejected { req, reason: RejectReason::InvalidPrice });
            return;
        }
        if total_qty.0 > self.cfg.max_order_qty.0 {
            out.emit(Event::Rejected { req, reason: RejectReason::InvalidQty });
            return;
        }
        let s = match self.lookup(id, env.account) {
            None => {
                out.emit(Event::Rejected { req, reason: RejectReason::UnknownOrStaleId });
                return;
            },
            Some(s) => s,
        };
        let ghost st = self.view_of();
        proof {
            self.lemma_retired_room(s);
            lemma_remove_order_inv(self.cfg, st, s);
        }
        let prev = self.slots[s as usize];
        let side = side_of(prev.side);
        let cancel_old = Event::Cancelled {
            req,
            id: Some(id),
            qty: Qty(prev.remaining),
            reason: CancelReason::Replaced,
        };
        let new_remaining = if total_qty.0 > prev.filled { total_qty.0 - prev.filled } else { 0 };
        if new_remaining == 0 {
            self.remove(s);
            out.emit(cancel_old);
            return;
        }
        if post_only && self.marketable(side, price) {
            out.emit(Event::Rejected { req, reason: RejectReason::PostOnlyWouldCross });
            return;
        }
        if self.free.len() == 0 && self.will_retire(s) {
            out.emit(Event::Rejected { req, reason: RejectReason::BookFull });
            return;
        }
        self.remove(s);
        out.emit(cancel_old);
        let kind = if post_only {
            OrderKind::PostOnly { price }
        } else {
            OrderKind::Limit { price, tif: Tif::Gtc }
        };
        self.submit(env, side, new_remaining, kind, out);
        proof {
            let r = submit(old(self).cfg, remove_order(old(self).cfg, st, s), *env, side, new_remaining, kind);
            assert(out.events() == old(out).events() + (seq![cancel_old] + r.1));
        }
    }
}

impl Engine for FastBook {
    closed spec fn wf(&self) -> bool {
        self.inv()
    }

    open spec fn ready(&self) -> bool {
        true
    }

    closed spec fn config(&self) -> Config {
        self.cfg
    }

    closed spec fn book(&self) -> BookView {
        self.view_of()
    }

    proof fn lemma_wf_book_inv(&self) {
    }

    proof fn lemma_ready(&self) {
    }

    fn process<S: EventSink>(&mut self, env: &Envelope, out: &mut S) {
        proof {
            lemma_step_inv(self.cfg, self.view_of(), *env);
        }
        match env.cmd {
            Command::New { side, qty, kind } => self.new_order(env, side, qty, kind, out),
            Command::Cancel { id } => self.cancel(env, id, out),
            Command::Reduce { id, total_qty } => self.reduce(env, id, total_qty, out),
            Command::Replace { id, price, total_qty, post_only } => self.replace(
                env,
                id,
                price,
                total_qty,
                post_only,
                out,
            ),
        }
    }
}

} // verus!

verus! {

/// The open lots of a prefix of a queue: no more than the whole, and one entry more adds
/// that entry's lots.
proof fn lemma_sum_prefix(slots: Seq<Slot>, q: Seq<u32>, k: int)
    requires
        0 <= k < q.len(),
    ensures
        sum_rem(slots, q.take(k + 1)) == sum_rem(slots, q.take(k)) + slots[q[k] as int].remaining,
        0 <= sum_rem(slots, q.take(k)),
        0 <= sum_rem(slots, q.take(k + 1)) <= sum_rem(slots, q),
    decreases q.len() - k,
{
    assert(q.take(k + 1).drop_last() =~= q.take(k));
    lemma_sum_bound(slots, q.take(k), u32::MAX as int);
    if k + 1 == q.len() {
        assert(q.take(k + 1) =~= q);
    } else {
        lemma_sum_prefix(slots, q, k + 1);
    }
}

impl FastBook {
    /// Walks the list of level `p` of `side` from its head, marking each slot in `seen`;
    /// the walk has to agree with the level's ends, total and bit (L1 to L4, N1, N2, S2).
    /// Gives the number of slots walked.
    #[verifier::rlimit(40)]
    fn walk_level(&self, side: Side, book: &BookSide, p: u16, seen: &mut Vec<bool>) -> (r: Result<
        usize,
        String,
    >)
        requires
            self.inv(),
            *book == side_book(self.bids, self.asks, side),
            p < MAX_TICKS,
            old(seen)@.len() == self.slots@.len(),
            forall|i: int|
                0 <= i < book.levels@[p as int].queue@.len() ==> !#[trigger] old(
                    seen,
                )@[book.levels@[p as int].queue@[i] as int],
        ensures
            r matches Ok(n) && n == book.levels@[p as int].queue@.len(),
            final(seen)@.len() == old(seen)@.len(),
            forall|x: int|
                0 <= x < old(seen)@.len() ==> #[trigger] final(seen)@[x] == (old(seen)@[x]
                    || book.levels@[p as int].queue@.contains(x as u32)),
    {
        let ghost slots = self.slots@;
        let ghost q = book.levels@[p as int].queue@;
        let ghost orders = slot_orders(slots);
        proof {
            assert(level_ok(side_book(self.bids, self.asks, side), slots, side, p as int));
            lemma_level_total_fits(q, slots, side, p as int);
            assert forall|i: int| 0 <= i < q.len() implies #[trigger] q[i] < slots.len() as int by {
                assert(entry_ok(q, slots, side, p as int, i));
                lemma_entry(q, slots, side, p as int, i);
            }
            lemma_distinct_len(q, slots.len() as int);
        }
        let level = book.levels[p as usize];
        let word = book.bits[(p / 64) as usize];
        let bit_set = (word >> ((p % 64) as u64)) & 1u64 == 1u64;
        let empty = level.head == NIL;
        proof {
            if q.len() > 0 {
                assert(entry_ok(q, slots, side, p as int, q.len() - 1));
                lemma_entry(q, slots, side, p as int, q.len() - 1);
                let s = q[q.len() - 1];
                assert(orders.contains_key(s));
                lemma_sum_prefix(slots, q, q.len() - 1);
                assert(q.take(q.len() as int) =~= q);
                assert(entry_ok(q, slots, side, p as int, 0));
                lemma_entry(q, slots, side, p as int, 0);
                assert(orders.contains_key(q[0]));
            }
        }
        if empty != (level.tail == NIL) || empty != (level.total == 0) || empty == bit_set {
            return Err("L1: level head, tail, total and bit disagree".to_string());
        }
        if !empty && !self.cfg.price_ok(Price(p)) {
            return Err("N2: a level outside the tick range is in use".to_string());
        }
        let mut s = level.head;
        let mut prev = NIL;
        let mut sum: u64 = 0;
        let mut n: usize = 0;
        proof {
            assert(q.take(0) =~= Seq::<u32>::empty());
        }
        while s != NIL
            invariant
                self.inv(),
                slots == self.slots@,
                orders == slot_orders(slots),
                *book == side_book(self.bids, self.asks, side),
                q == book.levels@[p as int].queue@,
                level == book.levels@[p as int],
                level_ok(*book, slots, side, p as int),
                p < MAX_TICKS,
                q.len() <= slots.len(),
                forall|i: int| 0 <= i < q.len() ==> #[trigger] q[i] < slots.len() as int,
                0 <= sum_rem(slots, q) <= u64::MAX,
                n <= q.len(),
                s == (if n < q.len() { q[n as int] } else { NIL }),
                prev == (if n == 0 { NIL } else { q[n - 1] }),
                sum == sum_rem(slots, q.take(n as int)),
                seen@.len() == old(seen)@.len(),
                old(seen)@.len() == slots.len(),
                forall|i: int| 0 <= i < q.len() ==> !#[trigger] old(seen)@[q[i] as int],
                forall|x: int|
                    0 <= x < old(seen)@.len() ==> #[trigger] seen@[x] == (old(seen)@[x] || q.take(
                        n as int,
                    ).contains(x as u32)),
            decreases q.len() - n,
        {
            proof {
                if n == q.len() {
                    assert(false);
                }
                assert(entry_ok(q, slots, side, p as int, n as int));
                lemma_entry(q, slots, side, p as int, n as int);
                assert(orders.contains_key(s));
                let t0 = q.take(n as int);
                if t0.contains(s) {
                    let j = choose|j: int| 0 <= j < t0.len() && t0[j] == s;
                    assert(q[j] == q[n as int]);
                }
            }
            if s as usize >= self.slots.len() {
                return Err("L3: a link points outside the slots".to_string());
            }
            let slot = self.slots[s as usize];
            if seen[s as usize] {
                return Err("L3: a slot is linked twice (cycle or shared)".to_string());
            }
            seen.set(s as usize, true);
            proof {
                lemma_sum_prefix(slots, q, n as int);
                let t0 = q.take(n as int);
                let t1 = q.take(n + 1);
                assert forall|x: int| 0 <= x < old(seen)@.len() implies #[trigger] seen@[x] == (old(
                    seen,
                )@[x] || t1.contains(x as u32)) by {
                    if x == s as int {
                        assert(t1[n as int] == s);
                    } else {
                        if t1.contains(x as u32) {
                            let j = choose|j: int| 0 <= j < t1.len() && t1[j] == x as u32;
                            assert(t0[j] == x as u32);
                        }
                        if t0.contains(x as u32) {
                            let j = choose|j: int| 0 <= j < t0.len() && t0[j] == x as u32;
                            assert(t1[j] == x as u32);
                        }
                    }
                }
                let g = slot.generation;
                assert((g & 1u32 == 0u32) == (g % 2 == 0)) by (bit_vector);
            }
            if slot.prev != prev {
                return Err("L3: a slot's prev link disagrees with the walk".to_string());
            }
            if slot.generation & 1 == 0 {
                return Err("S2: a linked slot is not live".to_string());
            }
            if side_of(slot.side) != side || slot.price != p {
                return Err("L4: a slot sits in a level that is not its own".to_string());
            }
            if slot.remaining == 0 || slot.filled as u64 + slot.remaining as u64
                > self.cfg.max_order_qty.0 as u64 {
                return Err("N1: a slot has bad quantities".to_string());
            }
            sum = sum + slot.remaining as u64;
            prev = s;
            s = slot.next;
            n = n + 1;
        }
        proof {
            if n < q.len() {
                assert(entry_ok(q, slots, side, p as int, n as int));
                lemma_entry(q, slots, side, p as int, n as int);
            }
            assert(q.take(n as int) =~= q);
        }
        if prev != level.tail {
            return Err("L3: a level's tail is not where its walk ended".to_string());
        }
        if sum != level.total {
            return Err("L2: a level's total is not the sum of its orders".to_string());
        }
        Ok(n)
    }
}

/// Buy levels are walked before sell levels.
spec fn side_rank(side: Side) -> int {
    match side {
        Side::Buy => 0,
        Side::Sell => 1,
    }
}

/// The live slots whose levels come before price `p` of side number `si` in the walk.
spec fn walked(slots: Seq<Slot>, si: int, p: int) -> Set<u32> {
    Set::new(
        |x: u32|
            x < slots.len() && live(slots[x as int]) && (side_rank(side_from(slots[x as int].side))
                < si || (side_rank(side_from(slots[x as int].side)) == si && slots[x as int].price
                < p)),
    )
}

/// Walking level `p` of side number `si` adds exactly its queue, which shares no slot with
/// what was walked before.
proof fn lemma_walk_step(bids: BookSide, asks: BookSide, slots: Seq<Slot>, side: Side, p: int)
    requires
        levels_ok(bids, asks, slots),
        all_placed(bids, asks, slots),
        0 <= p < MAX_TICKS,
    ensures
        ({
            let q = side_book(bids, asks, side).levels@[p].queue@;
            let si = side_rank(side);
            &&& forall|i: int| 0 <= i < q.len() ==> !walked(slots, si, p).contains(#[trigger] q[i])
            &&& walked(slots, si, p + 1) == walked(slots, si, p) + q.to_set()
            &&& walked(slots, si, p).disjoint(q.to_set())
            &&& q.to_set().len() == q.len()
        }),
{
    let bs = side_book(bids, asks, side);
    let q = bs.levels@[p].queue@;
    let si = side_rank(side);
    assert(level_ok(bs, slots, side, p));
    assert(queue_ok(q, slots, side, p));
    assert(q.no_duplicates());
    assert forall|i: int| 0 <= i < q.len() implies !walked(slots, si, p).contains(#[trigger] q[i]) by {
        assert(entry_ok(q, slots, side, p, i));
        lemma_entry(q, slots, side, p, i);
    }
    assert forall|x: u32| walked(slots, si, p + 1).contains(x) <==> (walked(slots, si, p)
        + q.to_set()).contains(x) by {
        if q.to_set().contains(x) {
            let i = choose|i: int| 0 <= i < q.len() && q[i] == x;
            assert(entry_ok(q, slots, side, p, i));
            lemma_entry(q, slots, side, p, i);
        }
        if walked(slots, si, p + 1).contains(x) && !walked(slots, si, p).contains(x) {
            assert(placed(bids, asks, slots, x as int));
            assert(side_from(slots[x as int].side) == side) by {
                match side {
                    Side::Buy => {},
                    Side::Sell => {},
                }
                match side_from(slots[x as int].side) {
                    Side::Buy => {},
                    Side::Sell => {},
                }
            }
            assert(q.contains(x));
        }
    }
    assert(walked(slots, si, p + 1) =~= walked(slots, si, p) + q.to_set());
    q.unique_seq_to_set();
}

/// After the last price of a side comes the first price of the next side, and after both
/// sides every live slot has been walked.
proof fn lemma_walk_ends(bids: BookSide, asks: BookSide, slots: Seq<Slot>)
    requires
        all_placed(bids, asks, slots),
    ensures
        walked(slots, 0, 0) == Set::<u32>::empty(),
        walked(slots, 0, MAX_TICKS as int) == walked(slots, 1, 0),
        walked(slots, 1, MAX_TICKS as int) == walked(slots, 2, 0),
        walked(slots, 2, 0) == slot_orders(slots).dom(),
{
    assert forall|x: u32| #[trigger] walked(slots, 0, 0).contains(x) implies false by {
        match side_from(slots[x as int].side) {
            Side::Buy => {},
            Side::Sell => {},
        }
    }
    assert(walked(slots, 0, 0) =~= Set::<u32>::empty());
    assert forall|x: u32| walked(slots, 1, 0).contains(x) implies #[trigger] walked(slots, 0, MAX_TICKS as int).contains(x) by {
        assert(placed(bids, asks, slots, x as int));
    }
    assert(walked(slots, 0, MAX_TICKS as int) =~= walked(slots, 1, 0));
    assert forall|x: u32| walked(slots, 2, 0).contains(x) implies #[trigger] walked(slots, 1, MAX_TICKS as int).contains(x) by {
        assert(placed(bids, asks, slots, x as int));
        match side_from(slots[x as int].side) {
            Side::Buy => {},
            Side::Sell => {},
        }
    }
    assert(walked(slots, 1, MAX_TICKS as int) =~= walked(slots, 2, 0));
    assert forall|x: u32| slot_orders(slots).dom().contains(x) implies #[trigger] walked(slots, 2, 0).contains(x) by {
        match side_from(slots[x as int].side) {
            Side::Buy => {},
            Side::Sell => {},
        }
    }
    assert(walked(slots, 2, 0) =~= slot_orders(slots).dom());
}

/// The slots below `i` that `seen` marks.
spec fn marked_below(seen: Seq<bool>, i: int) -> Set<u32> {
    Set::new(|x: u32| x < i && seen[x as int])
}

proof fn lemma_marked_step(seen: Seq<bool>, i: int)
    requires
        0 <= i < seen.len(),
        i < u32::MAX,
        marked_below(seen, i).finite(),
    ensures
        marked_below(seen, i + 1).finite(),
        marked_below(seen, i + 1).len() == marked_below(seen, i).len() + (if seen[i] {
            1int
        } else {
            0int
        }),
{
    if seen[i] {
        assert(marked_below(seen, i + 1) =~= marked_below(seen, i).insert(i as u32));
        assert(!marked_below(seen, i).contains(i as u32));
    } else {
        assert(marked_below(seen, i + 1) =~= marked_below(seen, i));
    }
}

impl FastBook {
    /// Checks the whole structure at run time: every level walked from its head (L1 to L4),
    /// the live count (S2), the free stack (S3), the slot accounting (S1), the generation
    /// limit (S4), quantities and prices (N1, N2) and the uncrossed book (L6). A book built
    /// by `new` and moved only by `process` always passes.
    #[verifier::rlimit(40)]
    pub fn check_invariants(&self) -> (r: Result<(), String>)
        requires
            self.wf(),
        ensures
            r is Ok,
    {
        let ghost slots = self.slots@;
        let ghost orders = slot_orders(slots);
        let ghost st = self.view_of();
        proof {
            lemma_orders_finite(slots);
            lemma_walk_ends(self.bids, self.asks, slots);
        }
        let cap = self.cfg.capacity as usize;
        let mut seen: Vec<bool> = Vec::new();
        let mut k: usize = 0;
        while k < cap
            invariant
                k <= cap,
                seen@ == Seq::new(k as nat, |x: int| false),
            decreases cap - k,
        {
            seen.push(false);
            k = k + 1;
        }
        let mut linked: usize = 0;
        let mut si: usize = 0;
        while si < 2
            invariant
                self.inv(),
                slots == self.slots@,
                orders == slot_orders(slots),
                cap == slots.len(),
                orders.dom().finite(),
                walked(slots, 0, 0) == Set::<u32>::empty(),
                walked(slots, 0, MAX_TICKS as int) == walked(slots, 1, 0),
                walked(slots, 1, MAX_TICKS as int) == walked(slots, 2, 0),
                walked(slots, 2, 0) == orders.dom(),
                si <= 2,
                seen@.len() == cap,
                forall|x: int|
                    0 <= x < cap ==> (#[trigger] seen@[x] <==> walked(slots, si as int, 0).contains(
                        x as u32,
                    )),
                walked(slots, si as int, 0).finite(),
                linked == walked(slots, si as int, 0).len(),
            decreases 2 - si,
        {
            let side = if si == 0 {
                Side::Buy
            } else {
                Side::Sell
            };
            let book = if si == 0 {
                &self.bids
            } else {
                &self.asks
            };
            let mut p: u16 = 0;
            while p < MAX_TICKS
                invariant
                    self.inv(),
                    slots == self.slots@,
                    orders == slot_orders(slots),
                    cap == slots.len(),
                    orders.dom().finite(),
                    si < 2,
                    side_rank(side) == si,
                    *book == side_book(self.bids, self.asks, side),
                    p <= MAX_TICKS,
                    seen@.len() == cap,
                    forall|x: int|
                        0 <= x < cap ==> (#[trigger] seen@[x] <==> walked(
                            slots,
                            si as int,
                            p as int,
                        ).contains(x as u32)),
                    walked(slots, si as int, p as int).finite(),
                    linked == walked(slots, si as int, p as int).len(),
                decreases MAX_TICKS - p,
            {
                let ghost q = book.levels@[p as int].queue@;
                proof {
                    lemma_walk_step(self.bids, self.asks, slots, side, p as int);
                    assert(level_ok(side_book(self.bids, self.asks, side), slots, side, p as int));
                    assert forall|i: int| 0 <= i < q.len() implies !#[trigger] seen@[q[i] as int] by {
                        assert(entry_ok(q, slots, side, p as int, i));
                        lemma_entry(q, slots, side, p as int, i);
                    }
                }
                let n = match self.walk_level(side, book, p, &mut seen) {
                    Ok(n) => n,
                    Err(e) => {
                        return Err(e);
                    },
                };
                proof {
                    let w0 = walked(slots, si as int, p as int);
                    let w1 = walked(slots, si as int, p + 1);
                    vstd::set_lib::lemma_set_disjoint_lens(w0, q.to_set());
                    assert forall|x: int| 0 <= x < cap implies (#[trigger] seen@[x] <==> w1.contains(
                        x as u32,
                    )) by {
                        assert(q.contains(x as u32) <==> q.to_set().contains(x as u32));
                    }
                    vstd::set_lib::lemma_len_subset(w1, orders.dom());
                    assert(w1.subset_of(orders.dom()));
                }
                linked = linked + n;
                p = p + 1;
            }
            si = si + 1;
        }
        let ghost live_set = orders.dom();
        if linked != self.live as usize {
            return Err("S2: the linked slots are not the live count".to_string());
        }
        let mut f: usize = 0;
        while f < self.free.len()
            invariant
                self.inv(),
                slots == self.slots@,
                st == self.view_of(),
                orders == slot_orders(slots),
                live_set == orders.dom(),
                cap == slots.len(),
                f <= self.free@.len(),
                seen@.len() == cap,
                forall|x: int|
                    0 <= x < cap ==> (#[trigger] seen@[x] <==> (live_set.contains(x as u32)
                        || self.free@.take(f as int).contains(x as u32))),
            decreases self.free@.len() - f,
        {
            let s = self.free[f];
            let ghost t0 = self.free@.take(f as int);
            let ghost t1 = self.free@.take(f + 1);
            proof {
                assert(st.free[f as int] == s);
                assert(placed(self.bids, self.asks, slots, s as int));
                if t0.contains(s) {
                    let j = choose|j: int| 0 <= j < t0.len() && t0[j] == s;
                    assert(self.free@[j] == self.free@[f as int]);
                }
                let g = slots[s as int].generation;
                assert((g & 1u32 == 1u32) == (g % 2 == 1)) by (bit_vector);
            }
            let slot = self.slots[s as usize];
            if seen[s as usize] || slot.generation & 1 == 1 || slot.prev != NIL || slot.next != NIL {
                return Err("S3: a free slot is live, duplicated or still linked".to_string());
            }
            seen.set(s as usize, true);
            proof {
                assert forall|x: int| 0 <= x < cap implies (#[trigger] seen@[x] <==> (
                live_set.contains(x as u32) || t1.contains(x as u32))) by {
                    if x == s as int {
                        assert(t1[f as int] == s);
                    } else {
                        if t1.contains(x as u32) {
                            let j = choose|j: int| 0 <= j < t1.len() && t1[j] == x as u32;
                            assert(t0[j] == x as u32);
                        }
                        if t0.contains(x as u32) {
                            let j = choose|j: int| 0 <= j < t0.len() && t0[j] == x as u32;
                            assert(t1[j] == x as u32);
                        }
                    }
                }
            }
            f = f + 1;
        }
        proof {
            assert(self.free@.take(f as int) =~= self.free@);
        }
        let mut unaccounted: usize = 0;
        let mut i: usize = 0;
        proof {
            assert(marked_below(seen@, 0) =~= Set::<u32>::empty());
        }
        while i < cap
            invariant
                i <= cap,
                cap == seen@.len(),
                cap < u32::MAX,
                marked_below(seen@, i as int).finite(),
                unaccounted + marked_below(seen@, i as int).len() == i,
            decreases cap - i,
        {
            proof {
                lemma_marked_step(seen@, i as int);
            }
            if !seen[i] {
                unaccounted = unaccounted + 1;
            }
            i = i + 1;
        }
        proof {
            let fs = self.free@.to_set();
            self.free@.unique_seq_to_set();
            assert(marked_below(seen@, cap as int) =~= live_set + fs) by {
                assert forall|x: u32| fs.contains(x) implies x < cap by {
                    let j = choose|j: int| 0 <= j < self.free@.len() && self.free@[j] == x;
                    assert(st.free[j] == x);
                }
            }
            assert(live_set.disjoint(fs)) by {
                assert forall|x: u32| fs.contains(x) implies !live_set.contains(x) by {
                    let j = choose|j: int| 0 <= j < self.free@.len() && self.free@[j] == x;
                    assert(st.free[j] == x);
                    assert(st.gens[x as int] == slots[x as int].generation);
                }
            }
            vstd::set_lib::lemma_set_disjoint_lens(live_set, fs);
        }
        if unaccounted != self.retired as usize {
            return Err("S1: the slots neither live nor free are not the retired count".to_string());
        }
        let mut g: usize = 0;
        while g < self.slots.len()
            invariant
                self.inv(),
                slots == self.slots@,
                st == self.view_of(),
                g <= slots.len(),
            decreases slots.len() - g,
        {
            proof {
                assert(st.gens[(g as u32) as int] <= self.cfg.generation_limit);
            }
            if self.slots[g].generation > self.cfg.generation_limit {
                return Err("S4: a generation exceeds the limit".to_string());
            }
            g = g + 1;
        }
        if let (Some(b), Some(a)) = (self.best_bid(), self.best_ask()) {
            proof {
                let cb = choose|x: u32| is_best(st.orders, Side::Buy, x);
                let ca = choose|x: u32| is_best(st.orders, Side::Sell, x);
                assert(st.orders.contains_key(cb) && st.orders.contains_key(ca));
            }
            if b.0 >= a.0 {
                return Err("L6: book crossed".to_string());
            }
        }
        Ok(())
    }
}

} // verus!
