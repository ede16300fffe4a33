//! What a schedule computes.
//!
//! The kernels are left open: the laws here hold whatever they compute, bit for bit.
//! A kernel sees the activations of its lane and nothing else, except that attention
//! also sees the cached rows in its window and that publishing a row changes the cache.
use vstd::prelude::*;

use crate::transformer::forward::{
    decode_ops, head_ops, in_lanes, lane_view, layers_ops, lemma_lane_view_concat, piece_ops,
    prompt_lane, range_ops, reads_written, writes_precede_reads, written_before, Lane, ModelPlan,
    Op, Step, PIECES,
};

verus! {

/// Kernels over activations `S` and cached rows `R`.
#[verifier::reject_recursive_types(S)]
#[verifier::reject_recursive_types(R)]
pub struct Kernels<S, R> {
    /// What an operation makes of a lane's activations.
    pub step: spec_fn(Op, S) -> S,
    /// The key and value that a lane publishes.
    pub row: spec_fn(Op, S) -> R,
    /// What attention makes of a lane's activations and the rows in its window.
    pub attend: spec_fn(Op, S, Seq<R>) -> S,
}

/// Cached rows by layer and position.
pub type Rows<R> = Map<(usize, int), R>;

/// The rows that attention sees.
pub open spec fn in_window<R>(cache: Rows<R>, layer: usize, start: int, len: nat) -> Seq<R> {
    Seq::new(len, |x: int| cache[(layer, start + x)])
}

/// One operation on one lane.
pub open spec fn lane_step<S, R>(k: Kernels<S, R>, op: Op, s: S, cache: Rows<R>) -> (S, Rows<R>) {
    match op {
        Op::Attend { layer, window } => (
            (k.attend)(op, s, in_window(cache, layer, window.start as int, window.len as nat)),
            cache,
        ),
        Op::WriteKv { layer, pos } => (
            (k.step)(op, s),
            cache.insert((layer, pos as int), (k.row)(op, s)),
        ),
        _ => ((k.step)(op, s), cache),
    }
}

/// Operations on one lane, in order.
pub open spec fn run_lane<S, R>(k: Kernels<S, R>, ops: Seq<Op>, s: S, cache: Rows<R>) -> (
    S,
    Rows<R>,
)
    decreases ops.len(),
{
    if ops.len() == 0 {
        (s, cache)
    } else {
        let (s1, c1) = run_lane(k, ops.drop_last(), s, cache);
        lane_step(k, ops.last(), s1, c1)
    }
}

// ── Lanes with a cache of their own ──────────────────────────────────────────

/// A schedule over lanes that each have a cache of their own.
pub open spec fn run_apart<S, R>(
    k: Kernels<S, R>,
    steps: Seq<Step>,
    lanes: Seq<(S, Rows<R>)>,
) -> Seq<(S, Rows<R>)>
    decreases steps.len(),
{
    if steps.len() == 0 {
        lanes
    } else {
        let before = run_apart(k, steps.drop_last(), lanes);
        match steps.last() {
            Step::All { op } => Seq::new(
                before.len(),
                |i: int| lane_step(k, op, before[i].0, before[i].1),
            ),
            Step::One { lane, op } => before.update(
                lane as int,
                lane_step(k, op, before[lane as int].0, before[lane as int].1),
            ),
        }
    }
}

/// What a shared schedule leaves in a lane and in its cache depends on nothing but what
/// it does to that lane.
pub proof fn law_lanes_do_not_disturb_each_other<S, R>(
    k: Kernels<S, R>,
    steps: Seq<Step>,
    lanes: Seq<(S, Rows<R>)>,
)
    requires
        in_lanes(steps, lanes.len()),
    ensures
        run_apart(k, steps, lanes).len() == lanes.len(),
        forall|i: int|
            0 <= i < lanes.len() ==> #[trigger] run_apart(k, steps, lanes)[i] == run_lane(
                k,
                lane_view(steps, i),
                lanes[i].0,
                lanes[i].1,
            ),
    decreases steps.len(),
{
    if steps.len() > 0 {
        let rest = steps.drop_last();
        assert(in_lanes(rest, lanes.len())) by {
            assert forall|j: int| 0 <= j < rest.len() implies (
            #[trigger] rest[j] matches Step::One { lane, op } ==> lane < lanes.len()) by {
                assert(steps[j] == rest[j]);
            }
        }
        law_lanes_do_not_disturb_each_other(k, rest, lanes);
        let before = run_apart(k, rest, lanes);
        let after = run_apart(k, steps, lanes);
        assert(steps[steps.len() - 1] == steps.last());
        assert forall|i: int| 0 <= i < lanes.len() implies #[trigger] after[i] == run_lane(
            k,
            lane_view(steps, i),
            lanes[i].0,
            lanes[i].1,
        ) by {
            assert(before[i] == run_lane(k, lane_view(rest, i), lanes[i].0, lanes[i].1));
            let view = lane_view(rest, i);
            match steps.last() {
                Step::All { op } => {
                    assert(view.push(op).drop_last() =~= view);
                },
                Step::One { lane, op } => {
                    if lane == i {
                        assert(view.push(op).drop_last() =~= view);
                    }
                },
            }
        }
    }
}

/// Batching is invisible: a sequence that shares a decode step ends up with the
/// activations, logits among them, and the cache that decoding its token alone gives.
pub proof fn law_batching_is_invisible<S, R>(
    k: Kernels<S, R>,
    m: ModelPlan,
    requests: Seq<Lane>,
    steps: Seq<Step>,
    lanes: Seq<(S, Rows<R>)>,
)
    requires
        lanes.len() == requests.len(),
        in_lanes(steps, requests.len()),
        forall|i: int|
            0 <= i < requests.len() ==> #[trigger] lane_view(steps, i) == decode_ops(
                m,
                requests[i],
            ),
    ensures
        forall|i: int|
            0 <= i < requests.len() ==> #[trigger] run_apart(k, steps, lanes)[i] == run_lane(
                k,
                decode_ops(m, requests[i]),
                lanes[i].0,
                lanes[i].1,
            ),
{
    law_lanes_do_not_disturb_each_other(k, steps, lanes);
    assert forall|i: int| 0 <= i < requests.len() implies #[trigger] run_apart(k, steps, lanes)[i]
        == run_lane(k, decode_ops(m, requests[i]), lanes[i].0, lanes[i].1) by {
        assert(lane_view(steps, i) == decode_ops(m, requests[i]));
    }
}

// ── Lanes over one cache ─────────────────────────────────────────────────────

/// A schedule over lanes that share a cache. Only steps for one lane have a meaning here.
pub open spec fn run_together<S, R>(
    k: Kernels<S, R>,
    steps: Seq<Step>,
    lanes: Seq<S>,
    cache: Rows<R>,
) -> (Seq<S>, Rows<R>)
    decreases steps.len(),
{
    if steps.len() == 0 {
        (lanes, cache)
    } else {
        let (before, c) = run_together(k, steps.drop_last(), lanes, cache);
        match steps.last() {
            Step::All { .. } => (before, c),
            Step::One { lane, op } => {
                let (s, c1) = lane_step(k, op, before[lane as int], c);
                (before.update(lane as int, s), c1)
            },
        }
    }
}

/// The lanes of a prompt.
pub struct Prompt {
    pub tokens: Seq<u32>,
    pub base: usize,
    pub lora: Option<usize>,
}

impl Prompt {
    pub open spec fn ops(self, m: ModelPlan, i: int) -> Seq<Op> {
        decode_ops(m, prompt_lane(self.tokens, self.base, self.lora, i))
    }
}

/// The first `n` tokens of a prompt decoded one after the other, each from the blank
/// activations and with the cache that the one before it left.
pub open spec fn one_by_one<S, R>(
    k: Kernels<S, R>,
    m: ModelPlan,
    p: Prompt,
    n: nat,
    blank: S,
    cache: Rows<R>,
) -> (Seq<S>, Rows<R>)
    decreases n,
{
    if n == 0 {
        (Seq::empty(), cache)
    } else {
        let (done, c) = one_by_one(k, m, p, (n - 1) as nat, blank, cache);
        let (s, c1) = run_lane(k, p.ops(m, n - 1), blank, c);
        (done.push(s), c1)
    }
}

// ── The values that flow ─────────────────────────────────────────────────────

/// The activations of lane `i` after its first `j` operations, whatever the order in
/// which the lanes take turns.
spec fn flow<S, R>(
    k: Kernels<S, R>,
    m: ModelPlan,
    p: Prompt,
    blank: S,
    cache: Rows<R>,
    i: nat,
    j: nat,
) -> S
    decreases i, j, 0int,
{
    if j == 0 {
        blank
    } else {
        let op = p.ops(m, i as int)[j - 1];
        let s = flow(k, m, p, blank, cache, i, (j - 1) as nat);
        match op {
            Op::Attend { layer, window } => (k.attend)(
                op,
                s,
                rows_for(
                    k,
                    m,
                    p,
                    blank,
                    cache,
                    i,
                    (j - 1) as nat,
                    layer,
                    window.start as int,
                    window.len as nat,
                ),
            ),
            _ => (k.step)(op, s),
        }
    }
}

/// The rows that lane `i` reads after its first `j` operations: those of earlier lanes,
/// its own, and those that were there before.
spec fn rows_for<S, R>(
    k: Kernels<S, R>,
    m: ModelPlan,
    p: Prompt,
    blank: S,
    cache: Rows<R>,
    i: nat,
    j: nat,
    layer: usize,
    start: int,
    len: nat,
) -> Seq<R>
    decreases i, j, 1int,
{
    Seq::new(
        len,
        |x: int|
            {
                let q = start + x - p.base;
                let row = if 0 <= q < i {
                    published(k, m, p, blank, cache, q as nat, layer, p.ops(m, q).len())
                } else if q == i {
                    published(k, m, p, blank, cache, i, layer, j)
                } else {
                    None
                };
                if row is Some {
                    row->0
                } else {
                    cache[(layer, start + x)]
                }
            },
    )
}

/// The row that lane `i` has published in `layer` with its first `j` operations.
spec fn published<S, R>(
    k: Kernels<S, R>,
    m: ModelPlan,
    p: Prompt,
    blank: S,
    cache: Rows<R>,
    i: nat,
    layer: usize,
    j: nat,
) -> Option<R>
    decreases i, j, 0int,
{
    if j == 0 {
        None
    } else {
        let op = p.ops(m, i as int)[j - 1];
        if op matches Op::WriteKv { layer: l, pos } && l == layer {
            Some((k.row)(op, flow(k, m, p, blank, cache, i, (j - 1) as nat)))
        } else {
            published(k, m, p, blank, cache, i, layer, (j - 1) as nat)
        }
    }
}

// ── What decoding a token writes and reads ───────────────────────────────────

/// How often `layer`'s row is published.
spec fn writes(ops: Seq<Op>, layer: usize) -> nat
    decreases ops.len(),
{
    if ops.len() == 0 {
        0
    } else {
        writes(ops.drop_last(), layer) + if ops.last() matches Op::WriteKv { layer: l, pos } && l
            == layer {
            1nat
        } else {
            0nat
        }
    }
}

/// Rows are published at `pos` only, and attention ends there.
spec fn stays_at(ops: Seq<Op>, pos: usize) -> bool {
    forall|j: int|
        0 <= j < ops.len() ==> match #[trigger] ops[j] {
            Op::WriteKv { pos: w, .. } => w == pos,
            Op::Attend { window, .. } => window.start + window.len == pos + 1,
            _ => true,
        }
}

proof fn lemma_writes_concat(a: Seq<Op>, b: Seq<Op>, layer: usize)
    ensures
        writes(a + b, layer) == writes(a, layer) + writes(b, layer),
    decreases b.len(),
{
    if b.len() == 0 {
        assert(a + b =~= a);
    } else {
        assert((a + b).drop_last() =~= a + b.drop_last());
        lemma_writes_concat(a, b.drop_last(), layer);
    }
}

proof fn lemma_no_writes(ops: Seq<Op>, layer: usize)
    requires
        forall|j: int| 0 <= j < ops.len() ==> !(#[trigger] ops[j] is WriteKv),
    ensures
        writes(ops, layer) == 0,
    decreases ops.len(),
{
    if ops.len() > 0 {
        let rest = ops.drop_last();
        assert forall|j: int| 0 <= j < rest.len() implies !(#[trigger] rest[j] is WriteKv) by {
            assert(rest[j] == ops[j]);
        }
        lemma_no_writes(rest, layer);
        assert(!(ops[ops.len() - 1] is WriteKv));
    }
}

proof fn lemma_piece(m: ModelPlan, lane: Lane, layer: usize, i: int, l: usize)
    requires
        0 <= i < PIECES,
        lane.pos < usize::MAX,
    ensures
        stays_at(piece_ops(m, lane, layer, i), lane.pos),
        writes(piece_ops(m, lane, layer, i), l) == if i == 3 && l == layer {
            1nat
        } else {
            0nat
        },
{
    let ops = piece_ops(m, lane, layer, i);
    if i == 3 {
        assert(ops.drop_last() =~= Seq::empty());
        reveal_with_fuel(writes, 2);
    } else {
        lemma_no_writes(ops, l);
    }
}

proof fn lemma_range(m: ModelPlan, lane: Lane, layer: usize, b: int, l: usize)
    requires
        0 <= b <= PIECES,
        lane.pos < usize::MAX,
    ensures
        stays_at(range_ops(m, lane, layer, 0, b), lane.pos),
        writes(range_ops(m, lane, layer, 0, b), l) == if b > 3 && l == layer {
            1nat
        } else {
            0nat
        },
    decreases b,
{
    if b > 0 {
        lemma_range(m, lane, layer, b - 1, l);
        lemma_piece(m, lane, layer, b - 1, l);
        lemma_writes_concat(
            range_ops(m, lane, layer, 0, b - 1),
            piece_ops(m, lane, layer, b - 1),
            l,
        );
    }
}

proof fn lemma_layers(m: ModelPlan, lane: Lane, n: nat, l: usize)
    requires
        n <= usize::MAX,
        lane.pos < usize::MAX,
    ensures
        stays_at(layers_ops(m, lane, n), lane.pos),
        writes(layers_ops(m, lane, n), l) == if l < n {
            1nat
        } else {
            0nat
        },
    decreases n,
{
    if n > 0 {
        lemma_layers(m, lane, (n - 1) as nat, l);
        lemma_range(m, lane, (n - 1) as usize, PIECES as int, l);
        lemma_writes_concat(
            layers_ops(m, lane, (n - 1) as nat),
            range_ops(m, lane, (n - 1) as usize, 0, PIECES as int),
            l,
        );
    }
}

/// Decoding a token publishes each layer's row at most once.
proof fn lemma_decode(m: ModelPlan, lane: Lane, l: usize)
    requires
        lane.pos < usize::MAX,
    ensures
        stays_at(decode_ops(m, lane), lane.pos),
        writes(decode_ops(m, lane), l) <= 1,
{
    assert(m.layers.len() == m.layers@.len());
    let a = seq![Op::Embed { token: lane.token }];
    let b = layers_ops(m, lane, m.layers@.len());
    let c = seq![Op::Advance];
    let d = head_ops(m);
    lemma_layers(m, lane, m.layers@.len(), l);
    lemma_no_writes(a, l);
    lemma_no_writes(c, l);
    lemma_no_writes(d, l);
    lemma_writes_concat(a, b, l);
    lemma_writes_concat(a + b, c, l);
    lemma_writes_concat(a + b + c, d, l);
}

// ── Every order gives the same values ────────────────────────────────────────

/// The row that is expected in `layer` at position `at` when lane `i` has done
/// `counts[i]` operations; `None` where it is still the one that was there before.
spec fn expected<S, R>(
    k: Kernels<S, R>,
    m: ModelPlan,
    p: Prompt,
    blank: S,
    cache: Rows<R>,
    counts: Seq<nat>,
    layer: usize,
    at: int,
) -> Option<R> {
    if 0 <= at - p.base < counts.len() {
        published(
            k,
            m,
            p,
            blank,
            cache,
            (at - p.base) as nat,
            layer,
            counts[at - p.base],
        )
    } else {
        None
    }
}

/// The row in `layer` at position `at` is the one that is expected.
spec fn slot_holds<S, R>(
    k: Kernels<S, R>,
    m: ModelPlan,
    p: Prompt,
    blank: S,
    cache: Rows<R>,
    counts: Seq<nat>,
    c: Rows<R>,
    layer: usize,
    at: int,
) -> bool {
    let row = expected(k, m, p, blank, cache, counts, layer, at);
    &&& c.dom().contains((layer, at)) == (cache.dom().contains((layer, at)) || row is Some)
    &&& c[(layer, at)] == if row is Some {
        row->0
    } else {
        cache[(layer, at)]
    }
}

/// The cache is as expected.
spec fn holds<S, R>(
    k: Kernels<S, R>,
    m: ModelPlan,
    p: Prompt,
    blank: S,
    cache: Rows<R>,
    counts: Seq<nat>,
    c: Rows<R>,
) -> bool {
    forall|layer: usize, at: int|
        #[trigger] slot_holds(k, m, p, blank, cache, counts, c, layer, at)
}

/// The next operation of a lane gives the values that flow, if every row that it reads of
/// an earlier lane is there for good.
proof fn lemma_turn<S, R>(
    k: Kernels<S, R>,
    m: ModelPlan,
    p: Prompt,
    blank: S,
    cache: Rows<R>,
    counts: Seq<nat>,
    c: Rows<R>,
    i: int,
)
    requires
        p.base + p.tokens.len() <= usize::MAX,
        counts.len() == p.tokens.len(),
        0 <= i < counts.len(),
        counts[i] < p.ops(m, i).len(),
        holds(k, m, p, blank, cache, counts, c),
        p.ops(m, i)[counts[i] as int] matches Op::Attend { layer, window } ==> forall|q: int|
            0 <= q < i && window.start <= p.base + q ==> #[trigger] published(
                k,
                m,
                p,
                blank,
                cache,
                q as nat,
                layer,
                counts[q],
            ) == published(k, m, p, blank, cache, q as nat, layer, p.ops(m, q).len()),
    ensures
        ({
            let s = flow(k, m, p, blank, cache, i as nat, counts[i]);
            let (s1, c1) = lane_step(k, p.ops(m, i)[counts[i] as int], s, c);
            let after = counts.update(i, counts[i] + 1);
            &&& s1 == flow(k, m, p, blank, cache, i as nat, after[i])
            &&& holds(k, m, p, blank, cache, after, c1)
        }),
{
    let j = counts[i];
    let ops = p.ops(m, i);
    let op = ops[j as int];
    let s = flow(k, m, p, blank, cache, i as nat, j);
    let (s1, c1) = lane_step(k, op, s, c);
    let after = counts.update(i, j + 1);
    lemma_decode(m, prompt_lane(p.tokens, p.base, p.lora, i), 0);
    match op {
        Op::Attend { layer, window } => {
            assert(window.start + window.len == p.base + i + 1);
            let start = window.start as int;
            let seen = in_window(c, layer, start, window.len as nat);
            let wanted = rows_for(
                k,
                m,
                p,
                blank,
                cache,
                i as nat,
                j,
                layer,
                start,
                window.len as nat,
            );
            assert forall|x: int| 0 <= x < window.len implies seen[x] == wanted[x] by {
                let q = start + x - p.base;
                assert(slot_holds(k, m, p, blank, cache, counts, c, layer, start + x));
                if 0 <= q < i {
                    assert(published(k, m, p, blank, cache, q as nat, layer, counts[q])
                        == published(
                        k,
                        m,
                        p,
                        blank,
                        cache,
                        q as nat,
                        layer,
                        p.ops(m, q).len(),
                    ));
                }
            }
            assert(seen =~= wanted);
        },
        _ => {},
    }
    assert forall|layer: usize, at: int|
        #[trigger] slot_holds(k, m, p, blank, cache, after, c1, layer, at) by {
        assert(slot_holds(k, m, p, blank, cache, counts, c, layer, at));
        if at - p.base == i {
            assert(published(k, m, p, blank, cache, i as nat, layer, j + 1) == if op
                matches Op::WriteKv { layer: l, pos } && l == layer {
                Some((k.row)(op, s))
            } else {
                published(k, m, p, blank, cache, i as nat, layer, j)
            });
        }
    }
}

/// The operations that lanes have done when the first `n` of them are through.
spec fn first_through(m: ModelPlan, p: Prompt, n: nat) -> Seq<nat> {
    Seq::new(
        p.tokens.len(),
        |i: int|
            if i < n {
                p.ops(m, i).len()
            } else {
                0
            },
    )
}

proof fn lemma_lane_in_turn<S, R>(
    k: Kernels<S, R>,
    m: ModelPlan,
    p: Prompt,
    blank: S,
    cache: Rows<R>,
    c: Rows<R>,
    i: int,
    j: nat,
)
    requires
        p.base + p.tokens.len() <= usize::MAX,
        0 <= i < p.tokens.len(),
        j <= p.ops(m, i).len(),
        holds(k, m, p, blank, cache, first_through(m, p, i as nat), c),
    ensures
        ({
            let (s, c1) = run_lane(k, p.ops(m, i).take(j as int), blank, c);
            &&& s == flow(k, m, p, blank, cache, i as nat, j)
            &&& holds(k, m, p, blank, cache, first_through(m, p, i as nat).update(i, j), c1)
        }),
    decreases j,
{
    let counts = first_through(m, p, i as nat);
    if j == 0 {
        assert(counts.update(i, 0) =~= counts);
    } else {
        let before = (j - 1) as nat;
        lemma_lane_in_turn(k, m, p, blank, cache, c, i, before);
        let ops = p.ops(m, i);
        assert(ops.take(j as int).drop_last() =~= ops.take(before as int));
        let now = counts.update(i, before);
        let c0 = run_lane(k, ops.take(before as int), blank, c).1;
        lemma_turn(k, m, p, blank, cache, now, c0, i);
        assert(now.update(i, j) =~= counts.update(i, j));
    }
}

proof fn lemma_one_by_one<S, R>(
    k: Kernels<S, R>,
    m: ModelPlan,
    p: Prompt,
    n: nat,
    blank: S,
    cache: Rows<R>,
)
    requires
        p.base + p.tokens.len() <= usize::MAX,
        n <= p.tokens.len(),
    ensures
        ({
            let (done, c) = one_by_one(k, m, p, n, blank, cache);
            &&& done.len() == n
            &&& forall|i: int|
                0 <= i < n ==> #[trigger] done[i] == flow(
                    k,
                    m,
                    p,
                    blank,
                    cache,
                    i as nat,
                    p.ops(m, i).len(),
                )
            &&& holds(k, m, p, blank, cache, first_through(m, p, n), c)
        }),
    decreases n,
{
    if n == 0 {
        assert forall|layer: usize, at: int|
            #[trigger] slot_holds(
                k,
                m,
                p,
                blank,
                cache,
                first_through(m, p, 0),
                cache,
                layer,
                at,
            ) by {}
    } else {
        let last = n - 1;
        lemma_one_by_one(k, m, p, last as nat, blank, cache);
        let c = one_by_one(k, m, p, last as nat, blank, cache).1;
        let len = p.ops(m, last).len();
        lemma_lane_in_turn(k, m, p, blank, cache, c, last, len);
        assert(p.ops(m, last).take(len as int) =~= p.ops(m, last));
        assert(first_through(m, p, last as nat).update(last, len) =~= first_through(m, p, n));
    }
}

/// The operations that a schedule has carried out, by lane.
spec fn done_by(steps: Seq<Step>, n: nat) -> Seq<nat> {
    Seq::new(n, |i: int| lane_view(steps, i).len())
}

proof fn lemma_published_settled<S, R>(
    k: Kernels<S, R>,
    m: ModelPlan,
    p: Prompt,
    blank: S,
    cache: Rows<R>,
    i: int,
    layer: usize,
    a: nat,
    b: nat,
)
    requires
        a <= b <= p.ops(m, i).len(),
        0 <= i,
        writes(p.ops(m, i).take(a as int), layer) == writes(p.ops(m, i).take(b as int), layer),
    ensures
        published(k, m, p, blank, cache, i as nat, layer, a) == published(
            k,
            m,
            p,
            blank,
            cache,
            i as nat,
            layer,
            b,
        ),
    decreases b,
{
    if a < b {
        let ops = p.ops(m, i);
        assert(ops.take(b as int).drop_last() =~= ops.take(b - 1));
        lemma_writes_grow(ops, layer, a, (b - 1) as nat);
        lemma_published_settled(k, m, p, blank, cache, i, layer, a, (b - 1) as nat);
    }
}

proof fn lemma_writes_grow(ops: Seq<Op>, layer: usize, a: nat, b: nat)
    requires
        a <= b <= ops.len(),
    ensures
        writes(ops.take(a as int), layer) <= writes(ops.take(b as int), layer),
{
    let rest = ops.subrange(a as int, b as int);
    assert(ops.take(b as int) =~= ops.take(a as int) + rest);
    lemma_writes_concat(ops.take(a as int), rest, layer);
}

/// A step that publishes a row shows in what the schedule does to its lane.
proof fn lemma_write_is_seen(steps: Seq<Step>, t: int, j: int, lane: usize, layer: usize, pos: usize)
    requires
        0 <= j < t <= steps.len(),
        steps[j] == (Step::One { lane, op: Op::WriteKv { layer, pos } }),
    ensures
        writes(lane_view(steps.take(t), lane as int), layer) >= 1,
    decreases t,
{
    let now = steps.take(t);
    assert(now.drop_last() =~= steps.take(t - 1));
    assert(now.last() == steps[t - 1]);
    let before = lane_view(steps.take(t - 1), lane as int);
    if j < t - 1 {
        lemma_write_is_seen(steps, t - 1, j, lane, layer, pos);
        match now.last() {
            Step::All { op } => {
                assert(before.push(op).drop_last() =~= before);
            },
            Step::One { lane: l, op } => {
                assert(before.push(op).drop_last() =~= before);
            },
        }
    } else {
        let op = Op::WriteKv { layer, pos };
        assert(before.push(op).drop_last() =~= before);
    }
}

proof fn lemma_together<S, R>(
    k: Kernels<S, R>,
    m: ModelPlan,
    p: Prompt,
    steps: Seq<Step>,
    t: int,
    blank: S,
    cache: Rows<R>,
)
    requires
        p.base + p.tokens.len() <= usize::MAX,
        0 <= t <= steps.len(),
        in_lanes(steps, p.tokens.len()),
        writes_precede_reads(steps, p.base as int),
        forall|i: int| 0 <= i < p.tokens.len() ==> #[trigger] lane_view(steps, i) == p.ops(m, i),
    ensures
        ({
            let blanks = Seq::new(p.tokens.len(), |i: int| blank);
            let (lanes, c) = run_together(k, steps.take(t), blanks, cache);
            let counts = done_by(steps.take(t), p.tokens.len());
            &&& lanes.len() == p.tokens.len()
            &&& forall|i: int|
                0 <= i < lanes.len() ==> #[trigger] lanes[i] == flow(
                    k,
                    m,
                    p,
                    blank,
                    cache,
                    i as nat,
                    counts[i],
                )
            &&& holds(k, m, p, blank, cache, counts, c)
        }),
    decreases t,
{
    let n = p.tokens.len();
    let blanks = Seq::new(n, |i: int| blank);
    let counts = done_by(steps.take(t), n);
    if t == 0 {
        assert(steps.take(0) =~= Seq::empty());
        assert forall|layer: usize, at: int|
            #[trigger] slot_holds(k, m, p, blank, cache, counts, cache, layer, at) by {}
    } else {
        lemma_together(k, m, p, steps, t - 1, blank, cache);
        let now = steps.take(t);
        let before = steps.take(t - 1);
        assert(now.drop_last() =~= before);
        let counts0 = done_by(before, n);
        assert(reads_written(steps, t - 1, p.base as int));
        assert(now.last() == steps[t - 1]);
        let lane = steps[t - 1]->One_lane;
        let op = steps[t - 1]->One_op;
        assert(lane < n);
        let i = lane as int;
        let ops = p.ops(m, i);
        assert(lane_view(steps, i) == ops);
        lemma_view_is_prefix(steps, t, i);
        lemma_view_is_prefix(steps, t - 1, i);
        assert(lane_view(now, i)[counts0[i] as int] == op);
        let c0 = run_together(k, before, blanks, cache).1;
        if let Op::Attend { layer, window } = op {
            assert forall|q: int| 0 <= q < i && window.start <= p.base + q implies
                #[trigger] published(k, m, p, blank, cache, q as nat, layer, counts0[q])
                == published(k, m, p, blank, cache, q as nat, layer, p.ops(m, q).len()) by {
                let view = lane_view(before, q);
                lemma_decode(m, prompt_lane(p.tokens, p.base, p.lora, i), layer);
                assert(written_before(steps, t - 1, layer, p.base + q, p.base as int));
                let j = choose|j: int|
                    0 <= j < t - 1 && #[trigger] steps[j] == (Step::One {
                        lane: q as usize,
                        op: Op::WriteKv { layer, pos: (p.base + q) as usize },
                    });
                lemma_write_is_seen(
                    steps,
                    t - 1,
                    j,
                    q as usize,
                    layer,
                    (p.base + q) as usize,
                );
                lemma_view_is_prefix(steps, t - 1, q);
                assert(lane_view(steps, q) == p.ops(m, q));
                lemma_decode(m, prompt_lane(p.tokens, p.base, p.lora, q), layer);
                lemma_writes_grow(p.ops(m, q), layer, view.len(), p.ops(m, q).len());
                assert(p.ops(m, q).take(p.ops(m, q).len() as int) =~= p.ops(m, q));
                lemma_published_settled(
                    k,
                    m,
                    p,
                    blank,
                    cache,
                    q,
                    layer,
                    view.len(),
                    p.ops(m, q).len(),
                );
            }
        }
        lemma_turn(k, m, p, blank, cache, counts0, c0, i);
        assert(counts =~= counts0.update(i, counts0[i] + 1));
    }
}

/// What a part of a schedule does to a lane comes first in what the whole does to it.
proof fn lemma_view_is_prefix(steps: Seq<Step>, t: int, lane: int)
    requires
        0 <= t <= steps.len(),
    ensures
        lane_view(steps.take(t), lane).len() <= lane_view(steps, lane).len(),
        lane_view(steps.take(t), lane) == lane_view(steps, lane).take(
            lane_view(steps.take(t), lane).len() as int,
        ),
{
    assert(steps =~= steps.take(t) + steps.skip(t));
    lemma_lane_view_concat(steps.take(t), steps.skip(t), lane);
    let a = lane_view(steps.take(t), lane);
    assert((a + lane_view(steps.skip(t), lane)).take(a.len() as int) =~= a);
}

/// A prompt processed at once leaves what its tokens decoded one by one leave: the same
/// activations, logits among them, for every position, and the same cache. Of the cache
/// only the prompt's own positions change: what is in front of them stays as it was, and
/// an empty prompt changes nothing.
pub proof fn law_prompt_at_once_is_one_by_one<S, R>(
    k: Kernels<S, R>,
    m: ModelPlan,
    p: Prompt,
    steps: Seq<Step>,
    blank: S,
    cache: Rows<R>,
)
    requires
        p.base + p.tokens.len() <= usize::MAX,
        in_lanes(steps, p.tokens.len()),
        writes_precede_reads(steps, p.base as int),
        forall|i: int|
            0 <= i < p.tokens.len() ==> #[trigger] lane_view(steps, i) == decode_ops(
                m,
                prompt_lane(p.tokens, p.base, p.lora, i),
            ),
    ensures
        run_together(k, steps, Seq::new(p.tokens.len(), |i: int| blank), cache) == one_by_one(
            k,
            m,
            p,
            p.tokens.len(),
            blank,
            cache,
        ),
        ({
            let (lanes, c) = run_together(
                k,
                steps,
                Seq::new(p.tokens.len(), |i: int| blank),
                cache,
            );
            &&& lanes.len() == p.tokens.len()
            &&& p.tokens.len() == 0 ==> c == cache
            &&& forall|layer: usize, at: int|
                !(p.base <= at < p.base + p.tokens.len()) ==> #[trigger] c.dom().contains(
                    (layer, at),
                ) == cache.dom().contains((layer, at)) && c[(layer, at)] == cache[(layer, at)]
        }),
{
    let n = p.tokens.len();
    assert forall|layer: usize, at: int|
        !(p.base <= at < p.base + n) implies #[trigger] one_by_one(
        k,
        m,
        p,
        n,
        blank,
        cache,
    ).1.dom().contains((layer, at)) == cache.dom().contains((layer, at)) && one_by_one(
        k,
        m,
        p,
        n,
        blank,
        cache,
    ).1[(layer, at)] == cache[(layer, at)] by {
        lemma_other_rows_stay(k, m, p, n, blank, cache, layer, at);
    }
    assert forall|i: int| 0 <= i < n implies #[trigger] lane_view(steps, i) == p.ops(m, i) by {}
    lemma_together(k, m, p, steps, steps.len() as int, blank, cache);
    lemma_one_by_one(k, m, p, n, blank, cache);
    assert(steps.take(steps.len() as int) =~= steps);
    let (lanes, c) = run_together(k, steps, Seq::new(n, |i: int| blank), cache);
    let (done, d) = one_by_one(k, m, p, n, blank, cache);
    let counts = done_by(steps, n);
    assert(counts =~= first_through(m, p, n)) by {
        assert forall|i: int| 0 <= i < n implies counts[i] == first_through(m, p, n)[i] by {
            assert(lane_view(steps, i) == p.ops(m, i));
        }
    }
    assert(lanes =~= done);
    assert(c.dom() =~= d.dom()) by {
        assert forall|key: (usize, int)| #[trigger]
            c.dom().contains(key) == d.dom().contains(key) by {
            assert(slot_holds(k, m, p, blank, cache, counts, c, key.0, key.1));
            assert(slot_holds(k, m, p, blank, cache, counts, d, key.0, key.1));
        }
    }
    assert forall|key: (usize, int)| #[trigger] c[key] == d[key] by {
        assert(slot_holds(k, m, p, blank, cache, counts, c, key.0, key.1));
        assert(slot_holds(k, m, p, blank, cache, counts, d, key.0, key.1));
    }
    assert(c =~= d);
}

impl Prompt {
    /// The first `a` tokens.
    pub open spec fn head(self, a: int) -> Prompt {
        Prompt { tokens: self.tokens.take(a), ..self }
    }

    /// What is behind the first `a` tokens.
    pub open spec fn tail(self, a: int) -> Prompt {
        Prompt { tokens: self.tokens.skip(a), base: (self.base + a) as usize, ..self }
    }
}

/// A prompt taken in two parts: the second starts from the cache that the first leaves.
pub proof fn lemma_split<S, R>(
    k: Kernels<S, R>,
    m: ModelPlan,
    p: Prompt,
    a: int,
    n: nat,
    blank: S,
    cache: Rows<R>,
)
    requires
        p.base + p.tokens.len() <= usize::MAX,
        0 <= a <= n <= p.tokens.len(),
    ensures
        ({
            let (first, c) = one_by_one(k, m, p.head(a), a as nat, blank, cache);
            let (rest, d) = one_by_one(k, m, p.tail(a), (n - a) as nat, blank, c);
            one_by_one(k, m, p, n, blank, cache) == (first + rest, d)
        }),
    decreases n,
{
    let (first, c) = one_by_one(k, m, p.head(a), a as nat, blank, cache);
    if n > a {
        lemma_split(k, m, p, a, (n - 1) as nat, blank, cache);
        let (rest, d) = one_by_one(k, m, p.tail(a), (n - 1 - a) as nat, blank, c);
        assert(p.tail(a).ops(m, n - 1 - a) == p.ops(m, n - 1));
        let s = run_lane(k, p.ops(m, n - 1), blank, d).0;
        assert((first + rest).push(s) =~= first + rest.push(s));
    } else {
        lemma_head(k, m, p, a, n, blank, cache);
        assert(first + Seq::empty() =~= first);
    }
}

/// The first tokens of a prompt do not know what follows them.
pub proof fn lemma_head<S, R>(
    k: Kernels<S, R>,
    m: ModelPlan,
    p: Prompt,
    a: int,
    n: nat,
    blank: S,
    cache: Rows<R>,
)
    requires
        n <= a <= p.tokens.len(),
    ensures
        one_by_one(k, m, p.head(a), n, blank, cache) == one_by_one(k, m, p, n, blank, cache),
    decreases n,
{
    if n > 0 {
        lemma_head(k, m, p, a, (n - 1) as nat, blank, cache);
        assert(p.head(a).ops(m, n - 1) == p.ops(m, n - 1));
    }
}

/// Reuse of a prefix is invisible: a prompt whose first `a` positions are already cached,
/// and which is processed from there on, leaves behind them the activations and the cache
/// that processing the whole of it leaves.
pub proof fn law_reused_prefix_is_invisible<S, R>(
    k: Kernels<S, R>,
    m: ModelPlan,
    p: Prompt,
    a: int,
    whole: Seq<Step>,
    suffix: Seq<Step>,
    blank: S,
    cache: Rows<R>,
)
    requires
        p.base + p.tokens.len() <= usize::MAX,
        0 <= a <= p.tokens.len(),
        in_lanes(whole, p.tokens.len()),
        writes_precede_reads(whole, p.base as int),
        forall|i: int|
            0 <= i < p.tokens.len() ==> #[trigger] lane_view(whole, i) == decode_ops(
                m,
                prompt_lane(p.tokens, p.base, p.lora, i),
            ),
        in_lanes(suffix, p.tail(a).tokens.len()),
        writes_precede_reads(suffix, p.base + a),
        forall|i: int|
            0 <= i < p.tail(a).tokens.len() ==> #[trigger] lane_view(suffix, i) == decode_ops(
                m,
                prompt_lane(p.tokens.skip(a), (p.base + a) as usize, p.lora, i),
            ),
    ensures
        ({
            let n = p.tokens.len();
            let cold = run_together(k, whole, Seq::new(n, |i: int| blank), cache);
            let kept = one_by_one(k, m, p.head(a), a as nat, blank, cache).1;
            let warm = run_together(
                k,
                suffix,
                Seq::new((n - a) as nat, |i: int| blank),
                kept,
            );
            &&& warm.0 == cold.0.skip(a)
            &&& warm.1 == cold.1
        }),
{
    let n = p.tokens.len();
    law_prompt_at_once_is_one_by_one(k, m, p, whole, blank, cache);
    let (first, kept) = one_by_one(k, m, p.head(a), a as nat, blank, cache);
    law_prompt_at_once_is_one_by_one(k, m, p.tail(a), suffix, blank, kept);
    lemma_split(k, m, p, a, n, blank, cache);
    lemma_one_by_one(k, m, p.head(a), a as nat, blank, cache);
    let rest = one_by_one(k, m, p.tail(a), (n - a) as nat, blank, kept).0;
    assert((first + rest).skip(a) =~= rest);
}

// ── Rows stay where they are ─────────────────────────────────────────────────

/// Every row that the operations publish is for position `pos`.
spec fn writes_at(ops: Seq<Op>, pos: usize) -> bool {
    forall|i: int|
        0 <= i < ops.len() ==> (#[trigger] ops[i] matches Op::WriteKv { layer: _, pos: at }
            ==> at == pos)
}

proof fn lemma_writes_at_concat(a: Seq<Op>, b: Seq<Op>, pos: usize)
    requires
        writes_at(a, pos),
        writes_at(b, pos),
    ensures
        writes_at(a + b, pos),
{
    assert forall|i: int| 0 <= i < (a + b).len() implies (
    #[trigger] (a + b)[i] matches Op::WriteKv { layer: _, pos: at } ==> at == pos) by {
        if i < a.len() {
            assert((a + b)[i] == a[i]);
        } else {
            assert((a + b)[i] == b[i - a.len()]);
        }
    }
}

proof fn lemma_range_writes_at(m: ModelPlan, lane: Lane, layer: usize, b: int)
    requires
        b <= PIECES,
    ensures
        writes_at(range_ops(m, lane, layer, 0, b), lane.pos),
    decreases b,
{
    if b > 0 {
        lemma_range_writes_at(m, lane, layer, b - 1);
        assert(writes_at(piece_ops(m, lane, layer, b - 1), lane.pos));
        lemma_writes_at_concat(
            range_ops(m, lane, layer, 0, b - 1),
            piece_ops(m, lane, layer, b - 1),
            lane.pos,
        );
    }
}

proof fn lemma_layers_write_at(m: ModelPlan, lane: Lane, n: nat)
    ensures
        writes_at(layers_ops(m, lane, n), lane.pos),
    decreases n,
{
    if n > 0 {
        lemma_layers_write_at(m, lane, (n - 1) as nat);
        lemma_range_writes_at(m, lane, (n - 1) as usize, PIECES as int);
        lemma_writes_at_concat(
            layers_ops(m, lane, (n - 1) as nat),
            range_ops(m, lane, (n - 1) as usize, 0, PIECES as int),
            lane.pos,
        );
    }
}

proof fn lemma_decode_writes_at(m: ModelPlan, lane: Lane)
    ensures
        writes_at(decode_ops(m, lane), lane.pos),
{
    let a = seq![Op::Embed { token: lane.token }];
    let l = layers_ops(m, lane, m.layers@.len());
    lemma_layers_write_at(m, lane, m.layers@.len());
    assert(writes_at(a, lane.pos));
    lemma_writes_at_concat(a, l, lane.pos);
    assert(writes_at(seq![Op::Advance], lane.pos));
    lemma_writes_at_concat(a + l, seq![Op::Advance], lane.pos);
    assert(writes_at(head_ops(m), lane.pos));
    lemma_writes_at_concat(a + l + seq![Op::Advance], head_ops(m), lane.pos);
}

proof fn lemma_lane_writes<S, R>(
    k: Kernels<S, R>,
    ops: Seq<Op>,
    s: S,
    cache: Rows<R>,
    pos: usize,
    layer: usize,
    at: int,
)
    requires
        writes_at(ops, pos),
        at != pos,
    ensures
        run_lane(k, ops, s, cache).1.dom().contains((layer, at)) == cache.dom().contains(
            (layer, at),
        ),
        run_lane(k, ops, s, cache).1[(layer, at)] == cache[(layer, at)],
    decreases ops.len(),
{
    if ops.len() > 0 {
        let rest = ops.drop_last();
        assert(writes_at(rest, pos)) by {
            assert forall|i: int| 0 <= i < rest.len() implies (
            #[trigger] rest[i] matches Op::WriteKv { layer: _, pos: at } ==> at == pos) by {
                assert(rest[i] == ops[i]);
            }
        }
        lemma_lane_writes(k, rest, s, cache, pos, layer, at);
        assert(ops[ops.len() - 1] == ops.last());
    }
}

proof fn lemma_other_rows_stay<S, R>(
    k: Kernels<S, R>,
    m: ModelPlan,
    p: Prompt,
    n: nat,
    blank: S,
    cache: Rows<R>,
    layer: usize,
    at: int,
)
    requires
        p.base + p.tokens.len() <= usize::MAX,
        n <= p.tokens.len(),
        !(p.base <= at < p.base + n),
    ensures
        one_by_one(k, m, p, n, blank, cache).1.dom().contains((layer, at))
            == cache.dom().contains((layer, at)),
        one_by_one(k, m, p, n, blank, cache).1[(layer, at)] == cache[(layer, at)],
    decreases n,
{
    if n > 0 {
        lemma_other_rows_stay(k, m, p, (n - 1) as nat, blank, cache, layer, at);
        let lane = prompt_lane(p.tokens, p.base, p.lora, n - 1);
        lemma_decode_writes_at(m, lane);
        assert(lane.pos == p.base + n - 1);
        let c = one_by_one(k, m, p, (n - 1) as nat, blank, cache).1;
        lemma_lane_writes(k, p.ops(m, n - 1), blank, c, lane.pos, layer, at);
    }
}

/// The positions before `a`.
pub open spec fn below(a: int) -> Set<(usize, int)> {
    Set::new(|key: (usize, int)| key.1 < a)
}

proof fn lemma_rows_below<S, R>(
    k: Kernels<S, R>,
    m: ModelPlan,
    p: Prompt,
    a: int,
    n: nat,
    blank: S,
    layer: usize,
    at: int,
)
    requires
        p.base == 0,
        p.tokens.len() <= usize::MAX,
        0 <= a <= n <= p.tokens.len(),
    ensures
        ({
            let first = one_by_one(k, m, p, a as nat, blank, Map::empty()).1;
            let all = one_by_one(k, m, p, n, blank, Map::empty()).1;
            &&& all.dom().contains((layer, at)) ==> at < n
            &&& at < a ==> all.dom().contains((layer, at)) == first.dom().contains((layer, at))
            &&& at < a ==> all[(layer, at)] == first[(layer, at)]
        }),
    decreases n,
{
    if n > 0 {
        let c = one_by_one(k, m, p, (n - 1) as nat, blank, Map::empty()).1;
        let lane = prompt_lane(p.tokens, p.base, p.lora, n - 1);
        lemma_decode_writes_at(m, lane);
        assert(lane.pos == n - 1);
        if at != n - 1 {
            lemma_lane_writes(k, p.ops(m, n - 1), blank, c, lane.pos, layer, at);
        }
        if n > a {
            lemma_rows_below(k, m, p, a, (n - 1) as nat, blank, layer, at);
        } else {
            lemma_rows_below(k, m, p, a - 1, (n - 1) as nat, blank, layer, at);
        }
    }
}

/// The rows of the first positions stay as they were published: whatever a sequence goes
/// on to decode, what it keeps of its first `a` positions is what decoding only those
/// leaves. That is why they can be handed to another sequence that starts alike.
pub proof fn law_kept_rows_stay<S, R>(
    k: Kernels<S, R>,
    m: ModelPlan,
    p: Prompt,
    a: int,
    n: nat,
    blank: S,
)
    requires
        p.base == 0,
        p.tokens.len() <= usize::MAX,
        0 <= a <= n <= p.tokens.len(),
    ensures
        one_by_one(k, m, p, n, blank, Map::empty()).1.restrict(below(a)) == one_by_one(
            k,
            m,
            p.head(a),
            a as nat,
            blank,
            Map::empty(),
        ).1,
{
    lemma_head(k, m, p, a, a as nat, blank, Map::empty());
    let first = one_by_one(k, m, p, a as nat, blank, Map::empty()).1;
    let all = one_by_one(k, m, p, n, blank, Map::empty()).1;
    let kept = all.restrict(below(a));
    assert forall|key: (usize, int)| #[trigger]
        kept.dom().contains(key) == first.dom().contains(key) by {
        lemma_rows_below(k, m, p, a, n, blank, key.0, key.1);
        lemma_rows_below(k, m, p, a, a as nat, blank, key.0, key.1);
    }
    assert forall|key: (usize, int)| #[trigger] kept.dom().contains(key) implies kept[key]
        == first[key] by {
        lemma_rows_below(k, m, p, a, n, blank, key.0, key.1);
    }
    assert(kept =~= first);
}

} // verus!
