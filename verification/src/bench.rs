//! Inputs for the latency benchmark: the recorded command stream and the like-for-like flow
//! of GTC limit orders.
use vstd::prelude::*;

use crate::audit::{decimal, decimal_text};
use crate::book::{FastBook, MAX_TICKS};
use crate::conformance::{issued_behind, lemma_generator_step};
use crate::laws::law_post_only_never_trades;
use crate::model::{
    best_price, book_inv, initial, lemma_initial_inv, lemma_step_inv, step, BookView,
};
use crate::types::{cfg_valid, Command, Config, Engine, Envelope, Event, OrderKind, Side};
use crate::workload::{
    classify_spec, draw, next_spec, observe_list, observe_spec, rest_side, rng_output, state_after,
    xorshift,
    KnownEntry, KnownOrder, Op, Rng, Workload,
};

verus! {

/// The generator state after `k` orders of the GTC flow from state `s` (three draws each).
pub open spec fn gtc_state(s: u64, k: nat) -> u64
    decreases k,
{
    if k == 0 {
        s
    } else {
        xorshift(xorshift(xorshift(gtc_state(s, (k - 1) as nat))))
    }
}

/// The order the GTC flow draws from state `s`: an even first draw buys, else sells; a buy
/// is priced in 38..=52, a sell in 48..=62; 1 to 20 lots.
pub open spec fn gtc_order_at(s: u64) -> (Side, u16, u32) {
    let side = if rng_output(s) % 2 == 0 {
        Side::Buy
    } else {
        Side::Sell
    };
    let p = rng_output(xorshift(s)) % 15;
    let price = match side {
        Side::Buy => (38 + p) as u16,
        Side::Sell => (48 + p) as u16,
    };
    (side, price, (1 + rng_output(xorshift(xorshift(s))) % 20) as u32)
}

/// The order drawn from the `j`-th, `j+1`-th and `j+2`-th numbers of a generator started
/// in state `s`: an even first number buys, else sells; the second sets the price, 38 to 52
/// for a buy and 48 to 62 for a sell; the third sets the size, 1 to 20 lots.
pub open spec fn drawn_order(s: u64, j: nat) -> (Side, u16, u32) {
    let side = if draw(s, j) % 2 == 0 {
        Side::Buy
    } else {
        Side::Sell
    };
    let base: int = match side {
        Side::Buy => 38,
        Side::Sell => 48,
    };
    (side, (base + draw(s, j + 1) % 15) as u16, (1 + draw(s, j + 2) % 20) as u32)
}

/// The GTC flow takes three fresh numbers per order from one generator: the `k`-th order
/// (from 0) is drawn from numbers `3k`, `3k+1` and `3k+2` of the generator seeded once.
pub proof fn law_gtc_flow_takes_successive_draws(s: u64, k: nat)
    ensures
        gtc_state(s, k) == state_after(s, 3 * k),
        gtc_order_at(gtc_state(s, k)) == drawn_order(s, 3 * k),
    decreases k,
{
    if k > 0 {
        law_gtc_flow_takes_successive_draws(s, (k - 1) as nat);
        let j = (3 * (k - 1)) as nat;
        assert(state_after(s, j + 1) == xorshift(state_after(s, j)));
        assert(state_after(s, j + 2) == xorshift(state_after(s, j + 1)));
        assert(state_after(s, j + 3) == xorshift(state_after(s, j + 2)));
        assert(j + 3 == 3 * k);
    }
    let t = state_after(s, 3 * k);
    assert(state_after(s, 3 * k + 1) == xorshift(t));
    assert(state_after(s, 3 * k + 2) == xorshift(state_after(s, 3 * k + 1)));
}

/// `n` GTC orders drawn from `seed`, overlapping around 50 so that about half trade.
pub fn gtc_flow(n: usize, seed: u64) -> (r: Vec<(Side, u16, u32)>)
    ensures
        r@.len() == n,
        forall|k: int|
            0 <= k < n ==> #[trigger] r@[k] == drawn_order(
                if seed == 0 {
                    1
                } else {
                    seed
                },
                (3 * k) as nat,
            ),
        forall|k: int|
            0 <= k < n ==> #[trigger] r@[k] == gtc_order_at(
                gtc_state(
                    if seed == 0 {
                        1
                    } else {
                        seed
                    },
                    k as nat,
                ),
            ),
{
    let mut rng = Rng::new(seed);
    let ghost s0 = rng.state();
    let mut r: Vec<(Side, u16, u32)> = Vec::new();
    let mut k: usize = 0;
    while k < n
        invariant
            k <= n,
            r@.len() == k,
            s0 == if seed == 0 {
                1
            } else {
                seed
            },
            rng.state() == gtc_state(s0, k as nat),
            forall|j: int| 0 <= j < k ==> #[trigger] r@[j] == gtc_order_at(gtc_state(s0, j as nat)),
        decreases n - k,
    {
        let ghost s = rng.state();
        let side = if rng.below(2) == 0 {
            Side::Buy
        } else {
            Side::Sell
        };
        let price = match side {
            Side::Buy => rng.range(38, 52) as u16,
            Side::Sell => rng.range(48, 62) as u16,
        };
        let qty = rng.range(1, 20) as u32;
        r.push((side, price, qty));
        proof {
            assert(r@[k as int] == gtc_order_at(s));
            assert(gtc_state(s0, (k + 1) as nat) == rng.state());
        }
        k = k + 1;
    }
    proof {
        assert forall|j: int| 0 <= j < n implies #[trigger] r@[j] == drawn_order(s0, (3 * j) as nat) by {
            law_gtc_flow_takes_successive_draws(s0, j as nat);
        }
    }
    r
}

/// The book after `envs`, one step each, from the start.
pub open spec fn replay(cfg: Config, envs: Seq<Envelope>) -> BookView
    decreases envs.len(),
{
    if envs.len() == 0 {
        initial(cfg)
    } else {
        step(cfg, replay(cfg, envs.drop_last()), envs.last()).0
    }
}

/// The generator and the book before command `k` (from 0) of the recorded stream: the
/// generator's random state, its known orders in drawing order and by identifier, and the
/// book. Each command is the generator's next one for the book's best prices; the book
/// takes it as `step` says, and the generator takes in the events.
pub open spec fn stream_state(cfg: Config, seed: u64, target: usize, k: nat) -> (
    u64,
    Seq<KnownEntry>,
    Map<u64, KnownOrder>,
    BookView,
)
    decreases k,
{
    if k == 0 {
        (
            if seed == 0 {
                1
            } else {
                seed
            },
            Seq::empty(),
            Map::empty(),
            initial(cfg),
        )
    } else {
        let prev = stream_state(cfg, seed, target, (k - 1) as nat);
        let (env, rng) = next_spec(
            prev.0,
            prev.1,
            (k - 1) as u64,
            target,
            64u32,
            best_price(prev.3.orders, Side::Buy),
            best_price(prev.3.orders, Side::Sell),
        );
        let (book, evs) = step(cfg, prev.3, env);
        let side = rest_side(prev.2, env);
        (rng, observe_list(prev.1, side, env.account, evs), observe_spec(prev.2, side, env.account, evs), book)
    }
}

/// Command `k` (from 0) of the recorded stream for `cfg`, `seed` and `target`.
pub open spec fn stream_command(cfg: Config, seed: u64, target: usize, k: nat) -> Envelope {
    let st = stream_state(cfg, seed, target, k);
    next_spec(
        st.0,
        st.1,
        k as u64,
        target,
        64u32,
        best_price(st.3.orders, Side::Buy),
        best_price(st.3.orders, Side::Sell),
    ).0
}

/// The commands of a recorded stream.
pub open spec fn commands(stream: Seq<(Envelope, Op)>) -> Seq<Envelope> {
    stream.map_values(|p: (Envelope, Op)| p.0)
}

/// One command of the recorded stream: the generator makes it, the engine runs it, the
/// generator takes in its events, and it is labelled with what it did.
fn record_one(engine: &mut FastBook, flow: &mut Workload, out: &mut Vec<Event>) -> (r: (
    Envelope,
    Op,
))
    requires
        old(engine).wf(),
        book_inv(old(engine).config(), old(engine).book()),
        old(flow).wf(),
        old(flow).account_count() == 64,
        old(flow).req_count() < u64::MAX / 10,
        issued_behind(old(flow).known().dom(), old(engine).book()),
        forall|x: u64| #[trigger] old(flow).known().contains_key(x) ==> old(flow).known()[x].qty >= 1,
    ensures
        final(engine).wf(),
        final(engine).config() == old(engine).config(),
        final(engine).book() == step(old(engine).config(), old(engine).book(), r.0).0,
        book_inv(final(engine).config(), final(engine).book()),
        final(flow).wf(),
        final(flow).account_count() == 64,
        final(flow).req_count() == old(flow).req_count() + 1,
        issued_behind(final(flow).known().dom(), final(engine).book()),
        forall|x: u64| #[trigger] final(flow).known().contains_key(x) ==> final(flow).known()[x].qty >= 1,
        r.0.req == final(flow).req_count(),
        r.0.ts == r.0.req * 10,
        r.1 == classify_spec(r.0, step(old(engine).config(), old(engine).book(), r.0).1),
        final(flow).target() == old(flow).target(),
        (r.0, final(flow).rng_state()) == next_spec(
            old(flow).rng_state(),
            old(flow).known_list(),
            old(flow).req_count(),
            old(flow).target(),
            old(flow).account_count(),
            best_price(old(engine).book().orders, Side::Buy),
            best_price(old(engine).book().orders, Side::Sell),
        ),
        final(flow).known_list() == observe_list(
            old(flow).known_list(),
            rest_side(old(flow).known(), r.0),
            r.0.account,
            step(old(engine).config(), old(engine).book(), r.0).1,
        ),
        final(flow).known() == observe_spec(
            old(flow).known(),
            rest_side(old(flow).known(), r.0),
            r.0.account,
            step(old(engine).config(), old(engine).book(), r.0).1,
        ),
{
    let ghost cfg = engine.config();
    let ghost st = engine.book();
    let ghost known = flow.known();
    let env = flow.next(engine.best_bid(), engine.best_ask());
    out.clear();
    engine.process(&env, out);
    proof {
        assert(out@ =~= step(cfg, st, env).1);
        if env.cmd matches Command::New { kind: OrderKind::PostOnly { .. }, .. } {
            law_post_only_never_trades(cfg, st, env);
        }
        lemma_generator_step(cfg, st, known, env);
        lemma_step_inv(cfg, st, env);
    }
    flow.observe(&env, out);
    let op = Op::classify(&env, out);
    (env, op)
}

/// The command stream of the benchmark: `ops` commands from the order-flow generator
/// seeded with `seed`, each run on a fast engine and labelled with what it did there.
pub fn record(cfg: Config, ops: usize, seed: u64, target_live: usize) -> (r: Vec<(Envelope, Op)>)
    requires
        cfg_valid(cfg),
        cfg.max_tick.0 < MAX_TICKS,
        ops < u64::MAX / 10,
    ensures
        r@.len() == ops,
        forall|k: int|
            0 <= k < ops ==> {
                let env = #[trigger] r@[k].0;
                &&& env == stream_command(cfg, seed, target_live, k as nat)
                &&& env.req == k + 1
                &&& env.ts == (k + 1) * 10
                &&& r@[k].1 == classify_spec(
                    env,
                    step(cfg, replay(cfg, commands(r@.take(k))), env).1,
                )
            },
{
    let mut engine = FastBook::new(cfg);
    let mut flow = Workload::new(seed, target_live);
    let mut out: Vec<Event> = Vec::with_capacity(4096);
    let mut stream: Vec<(Envelope, Op)> = Vec::with_capacity(ops);
    proof {
        lemma_initial_inv(cfg);
        assert(commands(stream@) =~= Seq::<Envelope>::empty());
    }
    let mut k: usize = 0;
    while k < ops
        invariant
            k <= ops,
            ops < u64::MAX / 10,
            stream@.len() == k,
            engine.wf(),
            engine.config() == cfg,
            engine.book() == replay(cfg, commands(stream@)),
            book_inv(cfg, engine.book()),
            flow.wf(),
            flow.account_count() == 64,
            flow.req_count() == k,
            issued_behind(flow.known().dom(), engine.book()),
            forall|x: u64| #[trigger] flow.known().contains_key(x) ==> flow.known()[x].qty >= 1,
            flow.target() == target_live,
            flow.rng_state() == stream_state(cfg, seed, target_live, k as nat).0,
            flow.known_list() == stream_state(cfg, seed, target_live, k as nat).1,
            flow.known() == stream_state(cfg, seed, target_live, k as nat).2,
            engine.book() == stream_state(cfg, seed, target_live, k as nat).3,
            forall|j: int|
                0 <= j < k ==> {
                    let env = #[trigger] stream@[j].0;
                    &&& env == stream_command(cfg, seed, target_live, j as nat)
                    &&& env.req == j + 1
                    &&& env.ts == (j + 1) * 10
                    &&& stream@[j].1 == classify_spec(
                        env,
                        step(cfg, replay(cfg, commands(stream@.take(j))), env).1,
                    )
                },
        decreases ops - k,
    {
        let ghost s0 = stream@;
        let p = record_one(&mut engine, &mut flow, &mut out);
        stream.push(p);
        proof {
            assert(commands(stream@).drop_last() =~= commands(s0));
            assert(commands(stream@).last() == p.0);
            assert forall|j: int| 0 <= j <= k implies #[trigger] stream@.take(j) == s0.take(j) by {
                assert(stream@.take(j) =~= s0.take(j));
            }
            assert(s0.take(k as int) =~= s0);
        }
        k = k + 1;
    }
    stream
}

/// A latency in nanoseconds as the report prints it: the timer cannot tell readings of one
/// tick or less apart, so those show as below one tick (about 42 ns).
pub fn ns(v: u64) -> (r: String)
    ensures
        r@ == if v <= 1 {
            "<42"@
        } else {
            decimal(v as nat)
        },
{
    if v <= 1 {
        "<42".to_string()
    } else {
        decimal_text(v)
    }
}

} // verus!
