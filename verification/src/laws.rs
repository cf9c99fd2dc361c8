//! Laws of the detonation cascade, proved over the transition model that
//! [`crate::world::World::detonate`] is specified against: idempotence of a
//! detonation request, full detonation of a mutually-in-range cluster, and
//! order-independent summation of overlapping blasts.

use vstd::prelude::*;

use crate::geom::Vec2I;
use crate::world::{
    blast_contrib, bomb_budget, bomb_elig, bomb_elig_below, bomb_hits, bomb_hits_from,
    count_armed, count_detonated, detonate_model, in_blast, lemma_count_armed_bounds,
    lemma_count_armed_update, recv_blasted, recv_hits_below, recv_included, wf_world, BombV,
    ConfigV, ReceiverV, WorldV, run, step,
};

verus! {

/// What a cascade never touches: the configuration, the slot counts, every
/// position, every already-set detonated flag; and the only change a slot can
/// see is the armed-to-detonated-and-removed transition.
pub proof fn lemma_run_frame(w: WorldV, q: Seq<int>)
    ensures
        run(w, q).cfg == w.cfg,
        run(w, q).bombs.len() == w.bombs.len(),
        run(w, q).recvs.len() == w.recvs.len(),
        forall|k: int|
            0 <= k < w.bombs.len() ==> #[trigger] run(w, q).bombs[k].pos == w.bombs[k].pos,
        forall|i: int|
            0 <= i < w.recvs.len() ==> #[trigger] run(w, q).recvs[i].pos == w.recvs[i].pos,
        forall|k: int|
            0 <= k < w.bombs.len() && w.bombs[k].detonated ==> #[trigger] run(
                w,
                q,
            ).bombs[k].detonated,
        forall|k: int|
            0 <= k < w.bombs.len() && #[trigger] run(w, q).bombs[k] != w.bombs[k] ==> (
            !w.bombs[k].detonated && w.bombs[k].alive && run(w, q).bombs[k].detonated && !run(
                w,
                q,
            ).bombs[k].alive),
    decreases count_armed(w.bombs, w.bombs.len() as int), q.len(),
{
    if q.len() != 0 {
        let j = q[0];
        let rest = q.subrange(1, q.len() as int);
        if 0 <= j < w.bombs.len() && w.bombs[j].alive && !w.bombs[j].detonated {
            let w2 = step(w, j);
            lemma_count_armed_bounds(w2.bombs, w2.bombs.len() as int);
            lemma_count_armed_update(
                w.bombs,
                j,
                BombV { pos: w.bombs[j].pos, detonated: true, alive: false },
                w.bombs.len() as int,
            );
            lemma_run_frame(w2, rest + bomb_hits(w, j));
        } else {
            lemma_run_frame(w, rest);
        }
    }
}

/// Every queued request for a bomb that is present (still alive, or already
/// flagged) leaves that bomb detonated when the cascade ends.
pub proof fn lemma_run_detonates_queued(w: WorldV, q: Seq<int>, k: int)
    requires
        0 <= k < w.bombs.len(),
        q.contains(k),
        w.bombs[k].detonated || w.bombs[k].alive,
    ensures
        run(w, q).bombs[k].detonated,
    decreases count_armed(w.bombs, w.bombs.len() as int), q.len(),
{
    let j = q[0];
    let rest = q.subrange(1, q.len() as int);
    if j != k {
        let idx = choose|idx: int| 0 <= idx < q.len() && q[idx] == k;
        assert(rest[idx - 1] == k);
        assert(rest.contains(k));
    }
    if 0 <= j < w.bombs.len() && w.bombs[j].alive && !w.bombs[j].detonated {
        let w2 = step(w, j);
        lemma_count_armed_bounds(w2.bombs, w2.bombs.len() as int);
        lemma_count_armed_update(
            w.bombs,
            j,
            BombV { pos: w.bombs[j].pos, detonated: true, alive: false },
            w.bombs.len() as int,
        );
        let q2 = rest + bomb_hits(w, j);
        if j == k {
            lemma_run_frame(w2, q2);
        } else {
            let idx = choose|idx: int| 0 <= idx < rest.len() && rest[idx] == k;
            assert(q2[idx] == k);
            assert(q2.contains(k));
            lemma_run_detonates_queued(w2, q2, k);
        }
    } else {
        if j == k {
            // a skipped request for a present bomb means the flag is set
            assert(w.bombs[k].detonated);
            lemma_run_frame(w, rest);
        } else {
            lemma_run_detonates_queued(w, rest, k);
        }
    }
}

/// A detonation request for a bomb that is absent, already removed or
/// already flagged changes nothing at all.
pub proof fn lemma_detonate_noop(w: WorldV, j: int)
    requires
        !(0 <= j < w.bombs.len() && w.bombs[j].alive && !w.bombs[j].detonated),
    ensures
        detonate_model(w, j) == w,
{
    let q = seq![j];
    assert(q.subrange(1, 1) =~= Seq::<int>::empty());
    assert(run(w, q) == run(w, Seq::<int>::empty()));
}

/// Detonating the same bomb twice has side effects only on the first
/// request: the second resolves against a flagged, removed bomb and is a
/// silent no-op.
pub proof fn lemma_detonate_idempotent(w: WorldV, j: int)
    ensures
        detonate_model(detonate_model(w, j), j) == detonate_model(w, j),
{
    let w1 = detonate_model(w, j);
    if 0 <= j < w.bombs.len() && w.bombs[j].alive && !w.bombs[j].detonated {
        let q = seq![j];
        let w2 = step(w, j);
        assert(q.subrange(1, 1) =~= Seq::<int>::empty());
        assert(run(w, q) == run(w2, Seq::<int>::empty() + bomb_hits(w, j)));
        assert(Seq::<int>::empty() + bomb_hits(w, j) =~= bomb_hits(w, j));
        lemma_run_frame(w2, bomb_hits(w, j));
        assert(w2.bombs[j].detonated);
        assert(w1.bombs[j].detonated);
        lemma_detonate_noop(w1, j);
    } else {
        lemma_detonate_noop(w, j);
    }
}

/// No more chain candidates are counted than there are other bombs.
proof fn lemma_bomb_elig_below_bound(bombs: Seq<BombV>, cfg: ConfigV, center: Vec2I, j: int, n: int)
    requires
        n >= 0,
    ensures
        bomb_elig_below(bombs, cfg, center, j, n) <= n,
        0 <= j < n ==> bomb_elig_below(bombs, cfg, center, j, n) <= n - 1,
        0 <= bomb_elig_below(bombs, cfg, center, j, n),
    decreases n,
{
    if n > 0 {
        lemma_bomb_elig_below_bound(bombs, cfg, center, j, n - 1);
    }
}

/// A chain candidate that fits the budget is in the hit list.
proof fn lemma_bomb_hits_from_complete(
    bombs: Seq<BombV>,
    cfg: ConfigV,
    center: Vec2I,
    j: int,
    budget: int,
    m: int,
    k: int,
)
    requires
        0 <= m <= k < bombs.len(),
        bomb_elig(bombs, cfg, center, j, k),
        bomb_elig_below(bombs, cfg, center, j, k) < budget,
    ensures
        bomb_hits_from(bombs, cfg, center, j, budget, m).contains(k),
    decreases bombs.len() - m,
{
    let rest = bomb_hits_from(bombs, cfg, center, j, budget, m + 1);
    if m == k {
        assert(bomb_hits_from(bombs, cfg, center, j, budget, m) == seq![k] + rest);
        assert((seq![k] + rest)[0] == k);
    } else {
        lemma_bomb_hits_from_complete(bombs, cfg, center, j, budget, m + 1, k);
        let idx = choose|idx: int| 0 <= idx < rest.len() && rest[idx] == k;
        if bomb_elig(bombs, cfg, center, j, m) && bomb_elig_below(bombs, cfg, center, j, m)
            < budget {
            assert((seq![m] + rest)[idx + 1] == k);
            assert(bomb_hits_from(bombs, cfg, center, j, budget, m).contains(k));
        }
    }
}

/// With no chain candidate from `m` on, the hit list from `m` is empty.
proof fn lemma_bomb_hits_from_empty(
    bombs: Seq<BombV>,
    cfg: ConfigV,
    center: Vec2I,
    j: int,
    budget: int,
    m: int,
)
    requires
        forall|k: int| m <= k < bombs.len() ==> !bomb_elig(bombs, cfg, center, j, k),
    ensures
        bomb_hits_from(bombs, cfg, center, j, budget, m) == Seq::<int>::empty(),
    decreases bombs.len() - m,
{
    if 0 <= m < bombs.len() {
        lemma_bomb_hits_from_empty(bombs, cfg, center, j, budget, m + 1);
    }
}

/// Once every bomb is flagged, the detonation count is the bomb count.
proof fn lemma_count_all_detonated(bombs: Seq<BombV>, n: int)
    requires
        0 <= n <= bombs.len(),
        forall|k: int| 0 <= k < n ==> (#[trigger] bombs[k]).detonated,
    ensures
        count_detonated(bombs, n) == n,
    decreases n,
{
    if n > 0 {
        lemma_count_all_detonated(bombs, n - 1);
    }
}

/// Termination and completeness of a worst-case chain reaction: in a cluster
/// of `N` armed bombs all mutually inside each other's blast radius, with
/// query slots for every candidate, one contact detonates and removes exactly
/// the `N` bombs, never more and never twice.
pub proof fn lemma_cluster_detonates_all(w: WorldV, id: int)
    requires
        wf_world(w),
        0 <= id < w.bombs.len(),
        forall|k: int|
            0 <= k < w.bombs.len() ==> (#[trigger] w.bombs[k]).alive && !w.bombs[k].detonated,
        forall|k: int, l: int|
            0 <= k < w.bombs.len() && 0 <= l < w.bombs.len() ==> in_blast(
                w.cfg,
                (#[trigger] w.bombs[k]).pos,
                (#[trigger] w.bombs[l]).pos,
            ),
        recv_hits_below(w.recvs, w.cfg, w.bombs[id].pos, w.recvs.len() as int) + w.bombs.len() - 1
            <= w.cfg.cap,
    ensures
        forall|k: int|
            0 <= k < w.bombs.len() ==> (#[trigger] detonate_model(w, id).bombs[k]).detonated
                && !detonate_model(w, id).bombs[k].alive,
        count_detonated(detonate_model(w, id).bombs, detonate_model(w, id).bombs.len() as int)
            == w.bombs.len(),
{
    let center = w.bombs[id].pos;
    let q = seq![id];
    let w2 = step(w, id);
    let hits = bomb_hits(w, id);
    assert(q.subrange(1, 1) =~= Seq::<int>::empty());
    assert(run(w, q) == run(w2, Seq::<int>::empty() + hits));
    assert(Seq::<int>::empty() + hits =~= hits);
    let r = detonate_model(w, id);
    assert(r == run(w2, hits));
    let rc = recv_hits_below(w.recvs, w.cfg, center, w.recvs.len() as int);
    let budget = bomb_budget(w, center);
    lemma_run_frame(w2, hits);
    assert forall|k: int|
        0 <= k < w.bombs.len() implies (#[trigger] r.bombs[k]).detonated by {
        if k == id {
            assert(w2.bombs[id].detonated);
        } else {
            assert(bomb_elig(w.bombs, w.cfg, center, id, k));
            lemma_bomb_elig_below_bound(w.bombs, w.cfg, center, id, k);
            lemma_bomb_elig_below_bound(w.bombs, w.cfg, center, id, w.bombs.len() as int);
            assert(bomb_elig_below(w.bombs, w.cfg, center, id, k) < budget) by {
                if id < k {
                    assert(bomb_elig_below(w.bombs, w.cfg, center, id, k) <= k - 1);
                } else {
                    assert(bomb_elig_below(w.bombs, w.cfg, center, id, k) <= k);
                }
            }
            lemma_bomb_hits_from_complete(w.bombs, w.cfg, center, id, budget, 0, k);
            assert(hits.contains(k));
            assert(w2.bombs[k].alive);
            lemma_run_detonates_queued(w2, hits, k);
        }
    }
    assert forall|k: int|
        0 <= k < w.bombs.len() implies !(#[trigger] r.bombs[k]).alive by {
        assert(r.bombs[k].detonated);
        assert(!w.bombs[k].detonated);
        assert(r.bombs[k] != w.bombs[k]);
    }
    lemma_count_all_detonated(r.bombs, r.bombs.len() as int);
}

/// Receiver hit counting reads only positions, never accumulators.
proof fn lemma_recv_hits_pos_agree(
    r1: Seq<ReceiverV>,
    r2: Seq<ReceiverV>,
    cfg: ConfigV,
    center: Vec2I,
    n: int,
)
    requires
        forall|i: int| 0 <= i < n ==> (#[trigger] r1[i]).pos == r2[i].pos,
    ensures
        recv_hits_below(r1, cfg, center, n) == recv_hits_below(r2, cfg, center, n),
    decreases n,
{
    if n > 0 {
        lemma_recv_hits_pos_agree(r1, r2, cfg, center, n - 1);
    }
}

/// A detonation with no chain candidate in range is exactly one step.
pub proof fn lemma_detonate_isolated(w: WorldV, j: int)
    requires
        0 <= j < w.bombs.len(),
        w.bombs[j].alive,
        !w.bombs[j].detonated,
        forall|k: int|
            0 <= k < w.bombs.len() ==> !bomb_elig(w.bombs, w.cfg, #[trigger] w.bombs[j].pos, j, k),
    ensures
        detonate_model(w, j) == step(w, j),
{
    let q = seq![j];
    let w2 = step(w, j);
    assert(q.subrange(1, 1) =~= Seq::<int>::empty());
    lemma_bomb_hits_from_empty(
        w.bombs,
        w.cfg,
        w.bombs[j].pos,
        j,
        bomb_budget(w, w.bombs[j].pos),
        0,
    );
    assert(run(w, q) == run(w2, Seq::<int>::empty() + bomb_hits(w, j)));
    assert(Seq::<int>::empty() + bomb_hits(w, j) =~= Seq::<int>::empty());
    assert(run(w2, Seq::<int>::empty()) == w2);
}

/// Summation and order independence: two detonations whose blasts both reach
/// a receiver add exactly the vector sum of their two individually computed
/// impulses to its accumulator, in either order.
pub proof fn lemma_two_blasts_sum(w: WorldV, a: int, b: int)
    requires
        wf_world(w),
        0 <= a < w.bombs.len(),
        0 <= b < w.bombs.len(),
        a != b,
        w.bombs[a].alive && !w.bombs[a].detonated,
        w.bombs[b].alive && !w.bombs[b].detonated,
        !in_blast(w.cfg, w.bombs[a].pos, w.bombs[b].pos),
        !in_blast(w.cfg, w.bombs[b].pos, w.bombs[a].pos),
        forall|k: int|
            0 <= k < w.bombs.len() && k != a && k != b ==> !(#[trigger] w.bombs[k]).alive,
    ensures
        forall|i: int|
            0 <= i < w.recvs.len() ==> #[trigger] detonate_model(
                detonate_model(w, a),
                b,
            ).recvs[i] == recv_blasted(
                recv_blasted(w.recvs[i], blast_contrib(w.recvs, w.cfg, w.bombs[a].pos, i)),
                blast_contrib(w.recvs, w.cfg, w.bombs[b].pos, i),
            ),
        detonate_model(detonate_model(w, a), b).recvs =~= detonate_model(
            detonate_model(w, b),
            a,
        ).recvs,
{
    lemma_one_then_other(w, a, b);
    lemma_one_then_other(w, b, a);
    lemma_run_frame(w, seq![a]);
    lemma_run_frame(detonate_model(w, a), seq![b]);
    lemma_run_frame(w, seq![b]);
    lemma_run_frame(detonate_model(w, b), seq![a]);
    let rab = detonate_model(detonate_model(w, a), b).recvs;
    let rba = detonate_model(detonate_model(w, b), a).recvs;
    assert forall|i: int| 0 <= i < w.recvs.len() implies rab[i] == rba[i] by {
        let ca = blast_contrib(w.recvs, w.cfg, w.bombs[a].pos, i);
        let cb = blast_contrib(w.recvs, w.cfg, w.bombs[b].pos, i);
        assert(rab[i].acc.x == w.recvs[i].acc.x + ca.x + cb.x);
        assert(rba[i].acc.x == w.recvs[i].acc.x + cb.x + ca.x);
        assert(rab[i] =~= rba[i]);
    }
}

/// Detonating two isolated bombs in order applies both blast contributions
/// to every receiver, each computed against the untouched positions.
proof fn lemma_one_then_other(w: WorldV, a: int, b: int)
    requires
        wf_world(w),
        0 <= a < w.bombs.len(),
        0 <= b < w.bombs.len(),
        a != b,
        w.bombs[a].alive && !w.bombs[a].detonated,
        w.bombs[b].alive && !w.bombs[b].detonated,
        !in_blast(w.cfg, w.bombs[a].pos, w.bombs[b].pos),
        !in_blast(w.cfg, w.bombs[b].pos, w.bombs[a].pos),
        forall|k: int|
            0 <= k < w.bombs.len() && k != a && k != b ==> !(#[trigger] w.bombs[k]).alive,
    ensures
        forall|i: int|
            0 <= i < w.recvs.len() ==> #[trigger] detonate_model(
                detonate_model(w, a),
                b,
            ).recvs[i] == recv_blasted(
                recv_blasted(w.recvs[i], blast_contrib(w.recvs, w.cfg, w.bombs[a].pos, i)),
                blast_contrib(w.recvs, w.cfg, w.bombs[b].pos, i),
            ),
{
    assert forall|k: int|
        0 <= k < w.bombs.len() implies !bomb_elig(
        w.bombs,
        w.cfg,
        #[trigger] w.bombs[a].pos,
        a,
        k,
    ) by {
        if k == b {
            assert(!in_blast(w.cfg, w.bombs[a].pos, w.bombs[b].pos));
        }
    }
    lemma_detonate_isolated(w, a);
    let w1 = step(w, a);
    assert(w1.bombs[b].alive && !w1.bombs[b].detonated);
    assert forall|k: int|
        0 <= k < w1.bombs.len() implies !bomb_elig(
        w1.bombs,
        w1.cfg,
        #[trigger] w1.bombs[b].pos,
        b,
        k,
    ) by {
        if k == a {
            assert(!w1.bombs[a].alive);
        } else if k != b {
            assert(!w.bombs[k].alive);
        }
    }
    lemma_detonate_isolated(w1, b);
    let w2 = step(w1, b);
    assert forall|i: int|
        0 <= i < w.recvs.len() implies #[trigger] w2.recvs[i] == recv_blasted(
        recv_blasted(w.recvs[i], blast_contrib(w.recvs, w.cfg, w.bombs[a].pos, i)),
        blast_contrib(w.recvs, w.cfg, w.bombs[b].pos, i),
    ) by {
        lemma_recv_hits_pos_agree(w1.recvs, w.recvs, w.cfg, w.bombs[b].pos, i);
        lemma_recv_hits_pos_agree(
            w1.recvs,
            w.recvs,
            w.cfg,
            w.bombs[b].pos,
            w.recvs.len() as int,
        );
        assert(w1.recvs[i].pos == w.recvs[i].pos);
        assert(recv_included(w1.recvs, w1.cfg, w1.bombs[b].pos, i) == recv_included(
            w.recvs,
            w.cfg,
            w.bombs[b].pos,
            i,
        ));
        assert(blast_contrib(w1.recvs, w1.cfg, w1.bombs[b].pos, i) == blast_contrib(
            w.recvs,
            w.cfg,
            w.bombs[b].pos,
            i,
        ));
    }
}

} // verus!
