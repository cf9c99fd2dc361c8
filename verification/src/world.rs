//! The object registry and the explosion resolver.
//!
//! Bombs and impulse receivers live in slot tables with stable indices, so a
//! removal during a cascade never invalidates an in-flight identity. A
//! detonation request is resolved with an explicit work queue: pop a bomb,
//! flag it, push impulses to every receiver the capped spatial query returns,
//! enqueue every other live bomb in range, and remove the flagged bomb. The
//! whole cascade is specified by the pure transition function
//! [`detonate_model`], and termination is structurally evident: every
//! processed request disarms one bomb, and every skipped request shortens the
//! queue.

use vstd::prelude::*;

use crate::falloff::{impulse, impulse_of, Impulse, IMP_MAX, RADIUS_MAX, SCALE_MAX};
use crate::geom::{dist_sq, dist_sq_exec, pos_wf, Pos, Vec2I};

verus! {

/// Tuning surface of the subsystem: blast range and impulse magnitude in
/// micro-units, and the spatial query's hit cap.
#[derive(Clone, Copy, Debug)]
pub struct Config {
    pub explosion_radius: u64,
    pub impulse_scale: u64,
    pub max_query_hits: usize,
}

/// Mathematical view of a configuration.
#[verifier::ext_equal]
pub ghost struct ConfigV {
    pub radius: int,
    pub scale: int,
    pub cap: int,
}

impl View for Config {
    type V = ConfigV;

    open spec fn view(&self) -> ConfigV {
        ConfigV {
            radius: self.explosion_radius as int,
            scale: self.impulse_scale as int,
            cap: self.max_query_hits as int,
        }
    }
}

pub open spec fn cfg_wf(cfg: ConfigV) -> bool {
    &&& 0 < cfg.radius <= RADIUS_MAX as int
    &&& 0 < cfg.scale <= SCALE_MAX as int
    &&& 1 <= cfg.cap
}

/// The default explosion radius, in micro-units (120 world units).
pub const EXPLOSION_RADIUS: u64 = 120_000_000;

/// The default impulse scale, in world units.
pub const IMPULSE_SCALING: u64 = 3_000_000;

/// The default cap on spatial query hits per detonation.
pub const MAX_QUERY_HITS: usize = 100;

impl Default for Config {
    /// The stock tuning of the game: radius 120, scale 3,000,000, cap 100.
    fn default() -> (c: Config)
        ensures
            c.explosion_radius == EXPLOSION_RADIUS,
            c.impulse_scale == IMPULSE_SCALING,
            c.max_query_hits == MAX_QUERY_HITS,
            cfg_wf(c@),
    {
        Config {
            explosion_radius: EXPLOSION_RADIUS,
            impulse_scale: IMPULSE_SCALING,
            max_query_hits: MAX_QUERY_HITS,
        }
    }
}

/// A bomb slot: armed until detonation, flagged exactly once, and removed
/// from the world right after its detonation resolves.
#[derive(Clone, Copy, Debug)]
pub struct Bomb {
    pub pos: Pos,
    pub detonated: bool,
    pub alive: bool,
}

#[verifier::ext_equal]
pub ghost struct BombV {
    pub pos: Vec2I,
    pub detonated: bool,
    pub alive: bool,
}

impl View for Bomb {
    type V = BombV;

    open spec fn view(&self) -> BombV {
        BombV { pos: self.pos@, detonated: self.detonated, alive: self.alive }
    }
}

/// A physical body that accumulates blast impulses; the physics step outside
/// this crate integrates and clears the accumulator.
#[derive(Clone, Copy, Debug)]
pub struct Receiver {
    pub pos: Pos,
    pub acc_x: i128,
    pub acc_y: i128,
}

#[verifier::ext_equal]
pub ghost struct ReceiverV {
    pub pos: Vec2I,
    pub acc: Vec2I,
}

impl View for Receiver {
    type V = ReceiverV;

    open spec fn view(&self) -> ReceiverV {
        ReceiverV { pos: self.pos@, acc: Vec2I { x: self.acc_x as int, y: self.acc_y as int } }
    }
}

/// A request to create bombs at the given positions, as handed over by the
/// level-loading collaborator.
#[derive(Clone, Debug)]
pub struct BombSpawn(pub Vec<Pos>);

/// Mathematical view of the whole registry.
#[verifier::ext_equal]
pub ghost struct WorldV {
    pub cfg: ConfigV,
    pub bombs: Seq<BombV>,
    pub recvs: Seq<ReceiverV>,
    pub trunc: int,
}

/// A body at `p` overlaps the blast circle around `center`.
pub open spec fn in_blast(cfg: ConfigV, center: Vec2I, p: Vec2I) -> bool {
    dist_sq(center, p) <= cfg.radius * cfg.radius
}

/// How many of the first `n` receivers are inside the blast at `center`.
pub open spec fn recv_hits_below(
    recvs: Seq<ReceiverV>,
    cfg: ConfigV,
    center: Vec2I,
    n: int,
) -> int
    decreases n,
{
    if n <= 0 {
        0
    } else {
        recv_hits_below(recvs, cfg, center, n - 1) + if in_blast(cfg, center, recvs[n - 1].pos) {
            1int
        } else {
            0
        }
    }
}

/// Receiver `i` is in range and claims one of the capped query slots;
/// receivers fill the hit list in index order before any bomb does.
pub open spec fn recv_included(recvs: Seq<ReceiverV>, cfg: ConfigV, center: Vec2I, i: int) -> bool {
    &&& in_blast(cfg, center, recvs[i].pos)
    &&& recv_hits_below(recvs, cfg, center, i) < cfg.cap
}

/// What one blast at `center` adds to receiver `i`'s accumulator.
pub open spec fn blast_contrib(recvs: Seq<ReceiverV>, cfg: ConfigV, center: Vec2I, i: int) -> Vec2I {
    if recv_included(recvs, cfg, center, i) {
        impulse_of(center, recvs[i].pos, cfg.radius, cfg.scale)
    } else {
        Vec2I { x: 0, y: 0 }
    }
}

/// A receiver after one more contribution is summed into its accumulator.
pub open spec fn recv_blasted(r: ReceiverV, c: Vec2I) -> ReceiverV {
    ReceiverV { pos: r.pos, acc: Vec2I { x: r.acc.x + c.x, y: r.acc.y + c.y } }
}

/// The receivers after the first `n` of them took their blast contribution.
pub open spec fn partial_blast(
    recvs: Seq<ReceiverV>,
    cfg: ConfigV,
    center: Vec2I,
    n: int,
) -> Seq<ReceiverV> {
    Seq::new(
        recvs.len(),
        |k: int|
            if k < n {
                recv_blasted(recvs[k], blast_contrib(recvs, cfg, center, k))
            } else {
                recvs[k]
            },
    )
}

/// Bomb `k` is a chain candidate of a blast of bomb `j` at `center`.
pub open spec fn bomb_elig(bombs: Seq<BombV>, cfg: ConfigV, center: Vec2I, j: int, k: int) -> bool {
    &&& k != j
    &&& bombs[k].alive
    &&& in_blast(cfg, center, bombs[k].pos)
}

/// How many of the first `n` bombs are chain candidates.
pub open spec fn bomb_elig_below(
    bombs: Seq<BombV>,
    cfg: ConfigV,
    center: Vec2I,
    j: int,
    n: int,
) -> int
    decreases n,
{
    if n <= 0 {
        0
    } else {
        bomb_elig_below(bombs, cfg, center, j, n - 1) + if bomb_elig(bombs, cfg, center, j, n - 1) {
            1int
        } else {
            0
        }
    }
}

/// The chain candidates from index `k` up that still fit the query budget,
/// in index order.
pub open spec fn bomb_hits_from(
    bombs: Seq<BombV>,
    cfg: ConfigV,
    center: Vec2I,
    j: int,
    budget: int,
    k: int,
) -> Seq<int>
    decreases bombs.len() - k,
{
    if k < 0 || k >= bombs.len() {
        Seq::empty()
    } else {
        let rest = bomb_hits_from(bombs, cfg, center, j, budget, k + 1);
        if bomb_elig(bombs, cfg, center, j, k) && bomb_elig_below(bombs, cfg, center, j, k)
            < budget {
            seq![k] + rest
        } else {
            rest
        }
    }
}

/// Query slots left for bombs once the in-range receivers took theirs.
pub open spec fn bomb_budget(w: WorldV, center: Vec2I) -> int {
    let rc = recv_hits_below(w.recvs, w.cfg, center, w.recvs.len() as int);
    if rc >= w.cfg.cap {
        0
    } else {
        w.cfg.cap - rc
    }
}

/// The chain requests one detonation of bomb `j` issues.
pub open spec fn bomb_hits(w: WorldV, j: int) -> Seq<int> {
    bomb_hits_from(w.bombs, w.cfg, w.bombs[j].pos, j, bomb_budget(w, w.bombs[j].pos), 0)
}

/// How many of the first `n` bombs are still armed (not detonated); the
/// termination measure of a cascade.
pub open spec fn count_armed(bombs: Seq<BombV>, n: int) -> int
    decreases n,
{
    if n <= 0 {
        0
    } else {
        count_armed(bombs, n - 1) + if !bombs[n - 1].detonated {
            1int
        } else {
            0
        }
    }
}

/// How many of the first `n` bombs have detonated.
pub open spec fn count_detonated(bombs: Seq<BombV>, n: int) -> int
    decreases n,
{
    if n <= 0 {
        0
    } else {
        count_detonated(bombs, n - 1) + if bombs[n - 1].detonated {
            1int
        } else {
            0
        }
    }
}

/// One detonation, atomically: flag bomb `j`, sum an impulse into every
/// receiver the capped query returns, note a truncation if the candidates
/// exceeded the cap, and remove the bomb.
pub open spec fn step(w: WorldV, j: int) -> WorldV {
    let center = w.bombs[j].pos;
    let rc = recv_hits_below(w.recvs, w.cfg, center, w.recvs.len() as int);
    let be = bomb_elig_below(w.bombs, w.cfg, center, j, w.bombs.len() as int);
    WorldV {
        cfg: w.cfg,
        bombs: w.bombs.update(j, BombV { pos: center, detonated: true, alive: false }),
        recvs: Seq::new(
            w.recvs.len(),
            |i: int| recv_blasted(w.recvs[i], blast_contrib(w.recvs, w.cfg, center, i)),
        ),
        trunc: w.trunc + if rc + be > w.cfg.cap {
            1int
        } else {
            0
        },
    }
}

/// Resolves a queue of detonation requests: a stale or already-flagged
/// request is skipped silently; a live one detonates and appends its chain
/// requests. Terminates because processing disarms a bomb and skipping
/// shortens the queue.
pub open spec fn run(w: WorldV, q: Seq<int>) -> WorldV
    decreases count_armed(w.bombs, w.bombs.len() as int), q.len(),
{
    if q.len() == 0 {
        w
    } else {
        let j = q[0];
        if 0 <= j < w.bombs.len() && w.bombs[j].alive && !w.bombs[j].detonated {
            proof {
                lemma_count_armed_bounds(step(w, j).bombs, step(w, j).bombs.len() as int);
                lemma_count_armed_update(
                    w.bombs,
                    j,
                    BombV { pos: w.bombs[j].pos, detonated: true, alive: false },
                    w.bombs.len() as int,
                );
            }
            run(step(w, j), q.subrange(1, q.len() as int) + bomb_hits(w, j))
        } else {
            run(w, q.subrange(1, q.len() as int))
        }
    }
}

/// What a single detonation request does to the world.
pub open spec fn detonate_model(w: WorldV, j: int) -> WorldV {
    run(w, seq![j])
}

/// Accumulators stay bounded by the number of detonations seen so far.
pub open spec fn acc_bounded(acc: Vec2I, dets: int) -> bool {
    &&& -(dets * (IMP_MAX as int)) <= acc.x <= dets * (IMP_MAX as int)
    &&& -(dets * (IMP_MAX as int)) <= acc.y <= dets * (IMP_MAX as int)
}

/// Well-formedness of the registry: a valid configuration, in-range
/// positions, no detonated bomb still in the world at rest, accumulators
/// bounded, and the truncation metric bounded by the detonation count.
pub open spec fn wf_world(w: WorldV) -> bool {
    &&& cfg_wf(w.cfg)
    &&& forall|k: int|
        0 <= k < w.bombs.len() ==> pos_wf(#[trigger] w.bombs[k].pos) && (w.bombs[k].detonated
            ==> !w.bombs[k].alive)
    &&& forall|i: int|
        0 <= i < w.recvs.len() ==> pos_wf(#[trigger] w.recvs[i].pos) && acc_bounded(
            w.recvs[i].acc,
            count_detonated(w.bombs, w.bombs.len() as int),
        )
    &&& 0 <= w.trunc <= count_detonated(w.bombs, w.bombs.len() as int)
}

pub proof fn lemma_count_armed_bounds(bombs: Seq<BombV>, n: int)
    ensures
        0 <= count_armed(bombs, n),
        n >= 0 ==> count_armed(bombs, n) <= n,
    decreases n,
{
    if n > 0 {
        lemma_count_armed_bounds(bombs, n - 1);
    }
}

pub proof fn lemma_count_detonated_bounds(bombs: Seq<BombV>, n: int)
    ensures
        0 <= count_detonated(bombs, n),
        n >= 0 ==> count_detonated(bombs, n) <= n,
    decreases n,
{
    if n > 0 {
        lemma_count_detonated_bounds(bombs, n - 1);
    }
}

/// The two counts partition the first `n` bombs.
pub proof fn lemma_count_split(bombs: Seq<BombV>, n: int)
    requires
        n >= 0,
    ensures
        count_armed(bombs, n) + count_detonated(bombs, n) == n,
    decreases n,
{
    if n > 0 {
        lemma_count_split(bombs, n - 1);
    }
}

/// Counts only read the `detonated` flags of the first `n` slots.
pub proof fn lemma_count_agree(s1: Seq<BombV>, s2: Seq<BombV>, n: int)
    requires
        forall|k: int| 0 <= k < n ==> s1[k].detonated == #[trigger] s2[k].detonated,
    ensures
        count_armed(s1, n) == count_armed(s2, n),
        count_detonated(s1, n) == count_detonated(s2, n),
    decreases n,
{
    if n > 0 {
        lemma_count_agree(s1, s2, n - 1);
    }
}

/// Flagging one armed bomb disarms exactly one slot.
pub proof fn lemma_count_armed_update(bombs: Seq<BombV>, j: int, b2: BombV, n: int)
    requires
        0 <= j < n <= bombs.len(),
    ensures
        count_armed(bombs.update(j, b2), n) == count_armed(bombs, n) - (if !bombs[j].detonated {
            1int
        } else {
            0
        }) + (if !b2.detonated {
            1int
        } else {
            0
        }),
        count_detonated(bombs.update(j, b2), n) == count_detonated(bombs, n) - (
        if bombs[j].detonated {
            1int
        } else {
            0
        }) + (if b2.detonated {
            1int
        } else {
            0
        }),
    decreases n,
{
    let s2 = bombs.update(j, b2);
    if j == n - 1 {
        assert(forall|k: int| 0 <= k < n - 1 ==> bombs[k].detonated == #[trigger] s2[k].detonated);
        lemma_count_agree(bombs, s2, n - 1);
    } else {
        lemma_count_armed_update(bombs, j, b2, n - 1);
    }
}

/// The bomb registry, the impulse receivers and the tuning configuration:
/// everything a detonation request touches.
pub struct World {
    config: Config,
    bombs: Vec<Bomb>,
    receivers: Vec<Receiver>,
    truncations: u64,
}

impl View for World {
    type V = WorldV;

    closed spec fn view(&self) -> WorldV {
        WorldV {
            cfg: self.config@,
            bombs: self.bombs@.map_values(|b: Bomb| b@),
            recvs: self.receivers@.map_values(|r: Receiver| r@),
            trunc: self.truncations as int,
        }
    }
}

impl World {
    pub open spec fn wf(&self) -> bool {
        wf_world(self@)
    }

    /// An empty world under the given configuration.
    pub fn new(config: Config) -> (w: World)
        requires
            cfg_wf(config@),
        ensures
            w.wf(),
            w@.cfg == config@,
            w@.bombs.len() == 0,
            w@.recvs.len() == 0,
            w@.trunc == 0,
    {
        let w = World { config, bombs: Vec::new(), receivers: Vec::new(), truncations: 0 };
        proof {
            assert(w@.bombs =~= Seq::<BombV>::empty());
            assert(w@.recvs =~= Seq::<ReceiverV>::empty());
        }
        w
    }

    pub fn bomb_count(&self) -> (n: usize)
        ensures
            n == self@.bombs.len(),
    {
        self.bombs.len()
    }

    pub fn receiver_count(&self) -> (n: usize)
        ensures
            n == self@.recvs.len(),
    {
        self.receivers.len()
    }

    pub fn bomb_detonated(&self, i: usize) -> (d: bool)
        requires
            i < self@.bombs.len(),
        ensures
            d == self@.bombs[i as int].detonated,
    {
        self.bombs[i].detonated
    }

    pub fn bomb_alive(&self, i: usize) -> (a: bool)
        requires
            i < self@.bombs.len(),
        ensures
            a == self@.bombs[i as int].alive,
    {
        self.bombs[i].alive
    }

    pub fn bomb_pos(&self, i: usize) -> (p: Pos)
        requires
            i < self@.bombs.len(),
        ensures
            p@ == self@.bombs[i as int].pos,
    {
        self.bombs[i].pos
    }

    pub fn receiver_pos(&self, i: usize) -> (p: Pos)
        requires
            i < self@.recvs.len(),
        ensures
            p@ == self@.recvs[i as int].pos,
    {
        self.receivers[i].pos
    }

    /// The impulse accumulated on receiver `i` since it was last cleared.
    pub fn accumulated_impulse(&self, i: usize) -> (acc: (i128, i128))
        requires
            i < self@.recvs.len(),
        ensures
            acc.0 == self@.recvs[i as int].acc.x,
            acc.1 == self@.recvs[i as int].acc.y,
    {
        (self.receivers[i].acc_x, self.receivers[i].acc_y)
    }

    /// How many detonations saw more overlapping bodies than the query cap
    /// admits; a tuning signal, not a fault.
    pub fn truncation_count(&self) -> (n: u64)
        ensures
            n == self@.trunc,
    {
        self.truncations
    }

    /// Registers an impulse receiver with an empty accumulator.
    pub fn add_receiver(&mut self, pos: Pos) -> (idx: usize)
        requires
            old(self).wf(),
            pos_wf(pos@),
        ensures
            final(self).wf(),
            idx == old(self)@.recvs.len(),
            final(self)@.recvs == old(self)@.recvs.push(
                ReceiverV { pos: pos@, acc: Vec2I { x: 0, y: 0 } },
            ),
            final(self)@.cfg == old(self)@.cfg,
            final(self)@.bombs == old(self)@.bombs,
            final(self)@.trunc == old(self)@.trunc,
    {
        let idx: usize = self.receivers.len();
        self.receivers.push(Receiver { pos, acc_x: 0, acc_y: 0 });
        proof {
            assert(self@.recvs =~= old(self)@.recvs.push(
                ReceiverV { pos: pos@, acc: Vec2I { x: 0, y: 0 } },
            ));
            assert(self@.bombs =~= old(self)@.bombs);
            lemma_count_detonated_bounds(self@.bombs, self@.bombs.len() as int);
            assert(acc_bounded(
                Vec2I { x: 0, y: 0 },
                count_detonated(self@.bombs, self@.bombs.len() as int),
            )) by (nonlinear_arith)
                requires
                    count_detonated(self@.bombs, self@.bombs.len() as int) >= 0,
            ;
        }
        idx
    }

    /// Moves receiver `i`; the physics integration step owns positions, this
    /// registry only mirrors them.
    pub fn set_receiver_pos(&mut self, i: usize, pos: Pos)
        requires
            old(self).wf(),
            i < old(self)@.recvs.len(),
            pos_wf(pos@),
        ensures
            final(self).wf(),
            final(self)@.recvs == old(self)@.recvs.update(
                i as int,
                ReceiverV { pos: pos@, acc: old(self)@.recvs[i as int].acc },
            ),
            final(self)@.cfg == old(self)@.cfg,
            final(self)@.bombs == old(self)@.bombs,
            final(self)@.trunc == old(self)@.trunc,
    {
        let mut r = self.receivers[i];
        r.pos = pos;
        self.receivers.set(i, r);
        proof {
            assert(self@.recvs =~= old(self)@.recvs.update(
                i as int,
                ReceiverV { pos: pos@, acc: old(self)@.recvs[i as int].acc },
            ));
            assert(self@.bombs =~= old(self)@.bombs);
            let dets = count_detonated(self@.bombs, self@.bombs.len() as int);
            assert forall|k: int|
                0 <= k < self@.recvs.len() implies pos_wf(#[trigger] self@.recvs[k].pos)
                && acc_bounded(self@.recvs[k].acc, dets) by {
                assert(old(self)@.recvs.len() == self@.recvs.len());
                assert(wf_world(old(self)@));
                assert(count_detonated(old(self)@.bombs, old(self)@.bombs.len() as int) == dets);
                assert(pos_wf(old(self)@.recvs[k].pos) && acc_bounded(
                    old(self)@.recvs[k].acc,
                    count_detonated(old(self)@.bombs, old(self)@.bombs.len() as int),
                ));
            }
        }
    }

    /// Hands the pending impulse of receiver `i` to the physics integration
    /// step and clears the accumulator.
    pub fn take_accumulated_impulse(&mut self, i: usize) -> (acc: (i128, i128))
        requires
            old(self).wf(),
            i < old(self)@.recvs.len(),
        ensures
            final(self).wf(),
            acc.0 == old(self)@.recvs[i as int].acc.x,
            acc.1 == old(self)@.recvs[i as int].acc.y,
            final(self)@.recvs == old(self)@.recvs.update(
                i as int,
                ReceiverV { pos: old(self)@.recvs[i as int].pos, acc: Vec2I { x: 0, y: 0 } },
            ),
            final(self)@.cfg == old(self)@.cfg,
            final(self)@.bombs == old(self)@.bombs,
            final(self)@.trunc == old(self)@.trunc,
    {
        let mut r = self.receivers[i];
        let acc = (r.acc_x, r.acc_y);
        r.acc_x = 0;
        r.acc_y = 0;
        self.receivers.set(i, r);
        proof {
            assert(self@.recvs =~= old(self)@.recvs.update(
                i as int,
                ReceiverV { pos: old(self)@.recvs[i as int].pos, acc: Vec2I { x: 0, y: 0 } },
            ));
            assert(self@.bombs =~= old(self)@.bombs);
            lemma_count_detonated_bounds(self@.bombs, self@.bombs.len() as int);
            assert(acc_bounded(
                Vec2I { x: 0, y: 0 },
                count_detonated(self@.bombs, self@.bombs.len() as int),
            )) by (nonlinear_arith)
                requires
                    count_detonated(self@.bombs, self@.bombs.len() as int) >= 0,
            ;
        }
        acc
    }

    /// Creates one armed bomb per requested position and registers each in
    /// the world; every new bomb detonates on its first contact event.
    pub fn spawn_bombs(&mut self, spawn: &BombSpawn)
        requires
            old(self).wf(),
            forall|i: int| 0 <= i < spawn.0@.len() ==> pos_wf(#[trigger] spawn.0@[i]@),
        ensures
            final(self).wf(),
            final(self)@.bombs == old(self)@.bombs + spawn.0@.map_values(
                |p: Pos| BombV { pos: p@, detonated: false, alive: true },
            ),
            final(self)@.cfg == old(self)@.cfg,
            final(self)@.recvs == old(self)@.recvs,
            final(self)@.trunc == old(self)@.trunc,
    {
        let ghost w0 = self@;
        let ghost target = w0.bombs + spawn.0@.map_values(
            |p: Pos| BombV { pos: p@, detonated: false, alive: true },
        );
        let mut i: usize = 0;
        while i < spawn.0.len()
            invariant
                i <= spawn.0@.len(),
                self.wf(),
                forall|k: int| 0 <= k < spawn.0@.len() ==> pos_wf(#[trigger] spawn.0@[k]@),
                self@.cfg == w0.cfg,
                self@.recvs == w0.recvs,
                self@.trunc == w0.trunc,
                self@.bombs =~= w0.bombs + spawn.0@.subrange(0, i as int).map_values(
                    |p: Pos| BombV { pos: p@, detonated: false, alive: true },
                ),
            decreases spawn.0@.len() - i,
        {
            let ghost before = self@;
            let p = spawn.0[i];
            self.bombs.push(Bomb { pos: p, detonated: false, alive: true });
            i = i + 1;
            proof {
                assert(self@.bombs =~= before.bombs.push(
                    BombV { pos: p@, detonated: false, alive: true },
                ));
                assert(self@.bombs =~= w0.bombs + spawn.0@.subrange(0, i as int).map_values(
                    |q: Pos| BombV { pos: q@, detonated: false, alive: true },
                ));
                assert(self@.recvs =~= before.recvs);
                lemma_count_agree(self@.bombs, before.bombs, before.bombs.len() as int);
                let dets = count_detonated(self@.bombs, self@.bombs.len() as int);
                assert(dets == count_detonated(before.bombs, before.bombs.len() as int));
                assert forall|r: int|
                    0 <= r < self@.recvs.len() implies pos_wf(#[trigger] self@.recvs[r].pos)
                    && acc_bounded(self@.recvs[r].acc, dets) by {
                    assert(self@.recvs[r] == before.recvs[r]);
                    assert(pos_wf(before.recvs[r].pos) && acc_bounded(
                        before.recvs[r].acc,
                        count_detonated(before.bombs, before.bombs.len() as int),
                    ));
                }
                assert forall|k: int|
                    0 <= k < self@.bombs.len() implies pos_wf(#[trigger] self@.bombs[k].pos) && (
                    self@.bombs[k].detonated ==> !self@.bombs[k].alive) by {
                    if k < before.bombs.len() {
                        assert(self@.bombs[k] == before.bombs[k]);
                        assert(pos_wf(before.bombs[k].pos) && (before.bombs[k].detonated
                            ==> !before.bombs[k].alive));
                    } else {
                        assert(self@.bombs[k] == (BombV {
                            pos: spawn.0@[i - 1]@,
                            detonated: false,
                            alive: true,
                        }));
                    }
                }
                assert(wf_world(self@));
            }
        }
        proof {
            assert(spawn.0@.subrange(0, spawn.0@.len() as int) =~= spawn.0@);
            assert(self@.bombs =~= target);
        }
    }

    /// Removes every bomb of the play session from the world, detonated or
    /// not; slots stay allocated so identities remain stable.
    pub fn despawn_all(&mut self)
        requires
            old(self).wf(),
        ensures
            final(self).wf(),
            final(self)@.bombs.len() == old(self)@.bombs.len(),
            forall|k: int|
                0 <= k < final(self)@.bombs.len() ==> #[trigger] final(self)@.bombs[k] == (BombV {
                    pos: old(self)@.bombs[k].pos,
                    detonated: old(self)@.bombs[k].detonated,
                    alive: false,
                }),
            final(self)@.cfg == old(self)@.cfg,
            final(self)@.recvs == old(self)@.recvs,
            final(self)@.trunc == old(self)@.trunc,
    {
        let ghost w0 = self@;
        let mut i: usize = 0;
        while i < self.bombs.len()
            invariant
                i <= self@.bombs.len(),
                self@.bombs.len() == w0.bombs.len(),
                self@.cfg == w0.cfg,
                self@.recvs == w0.recvs,
                self@.trunc == w0.trunc,
                cfg_wf(self@.cfg),
                wf_world(w0),
                forall|k: int|
                    0 <= k < i ==> #[trigger] self@.bombs[k] == (BombV {
                        pos: w0.bombs[k].pos,
                        detonated: w0.bombs[k].detonated,
                        alive: false,
                    }),
                forall|k: int| i <= k < self@.bombs.len() ==> #[trigger] self@.bombs[k] == w0.bombs[k],
            decreases self@.bombs.len() - i,
        {
            let ghost before = self@;
            let mut b = self.bombs[i];
            b.alive = false;
            self.bombs.set(i, b);
            i = i + 1;
            proof {
                assert(b@ == (BombV {
                    pos: before.bombs[i - 1].pos,
                    detonated: before.bombs[i - 1].detonated,
                    alive: false,
                }));
                assert(before.bombs[i - 1] == w0.bombs[i - 1]);
                assert(self@.bombs =~= before.bombs.update(i - 1, b@));
                assert(self@.recvs =~= before.recvs);
            }
        }
        proof {
            lemma_count_agree(self@.bombs, w0.bombs, w0.bombs.len() as int);
        }
    }

    /// One detonation, matching [`step`] exactly: flag the bomb, apply the
    /// capped blast to the receivers, collect the chain candidates, note a
    /// truncation if the candidates overflowed the cap, and remove the bomb.
    fn blast(&mut self, j: usize) -> (hits: Vec<usize>)
        requires
            old(self).wf(),
            j < old(self)@.bombs.len(),
            old(self)@.bombs[j as int].alive,
            !old(self)@.bombs[j as int].detonated,
        ensures
            final(self).wf(),
            final(self)@ == step(old(self)@, j as int),
            to_ints(hits@) == bomb_hits(old(self)@, j as int),
            count_armed(final(self)@.bombs, final(self)@.bombs.len() as int) == count_armed(
                old(self)@.bombs,
                old(self)@.bombs.len() as int,
            ) - 1,
    {
        let ghost w1 = self@;
        let center: Pos = self.bombs[j].pos;
        let radius: u64 = self.config.explosion_radius;
        let scale: u64 = self.config.impulse_scale;
        let cap: usize = self.config.max_query_hits;
        proof {
            assert((radius as int) * (radius as int) <= (RADIUS_MAX as int) * (RADIUS_MAX as int))
                by (nonlinear_arith)
                requires
                    0 <= (radius as int) <= (RADIUS_MAX as int),
            ;
        }
        let r2: u128 = (radius as u128) * (radius as u128);
        let nb: usize = self.bombs.len();
        let ghost dets = count_detonated(w1.bombs, w1.bombs.len() as int);
        proof {
            lemma_count_detonated_bounds(w1.bombs, w1.bombs.len() as int);
            lemma_count_armed_at_least_one(w1.bombs, j as int, w1.bombs.len() as int);
            lemma_count_split(w1.bombs, w1.bombs.len() as int);
            assert(dets <= nb <= usize::MAX);
        }
        // apply the falloff impulse to every receiver that claims a query slot
        let mut hit_count: usize = 0;
        let mut i: usize = 0;
        while i < self.receivers.len()
            invariant
                wf_world(w1),
                self@.cfg == w1.cfg,
                self@.bombs == w1.bombs,
                self@.trunc == w1.trunc,
                self@.recvs.len() == w1.recvs.len(),
                j < w1.bombs.len(),
                center@ == w1.bombs[j as int].pos,
                radius as int == w1.cfg.radius,
                scale as int == w1.cfg.scale,
                cap as int == w1.cfg.cap,
                r2 as int == w1.cfg.radius * w1.cfg.radius,
                dets == count_detonated(w1.bombs, w1.bombs.len() as int),
                0 <= dets <= w1.bombs.len(),
                dets <= usize::MAX,
                i <= w1.recvs.len(),
                hit_count == recv_hits_below(w1.recvs, w1.cfg, center@, i as int),
                hit_count <= i,
                self@.recvs == partial_blast(w1.recvs, w1.cfg, center@, i as int),
            decreases w1.recvs.len() - i,
        {
            let rcv = self.receivers[i];
            proof {
                assert(self@.recvs[i as int] == w1.recvs[i as int]);
                assert(pos_wf(w1.recvs[i as int].pos) && acc_bounded(w1.recvs[i as int].acc, dets));
            }
            let d2 = dist_sq_exec(&center, &rcv.pos);
            let ghost before = self@;
            let hit = d2 <= r2;
            if hit && hit_count < cap {
                proof {
                    assert(recv_included(w1.recvs, w1.cfg, center@, i as int));
                    crate::falloff::lemma_impulse_of_bounds(
                        center@,
                        rcv.pos@,
                        w1.cfg.radius,
                        w1.cfg.scale,
                    );
                    assert((dets + 1) * (IMP_MAX as int) == dets * (IMP_MAX as int) + (
                    IMP_MAX as int)) by (nonlinear_arith);
                    assert(dets <= 18_446_744_073_709_551_615int);
                    assert(dets * (IMP_MAX as int)
                        <= 18_446_744_073_709_551_615int * 2_000_000_000_000_000int)
                        by (nonlinear_arith)
                        requires
                            0 <= dets <= 18_446_744_073_709_551_615int,
                    ;
                }
                let imp = impulse(&center, &rcv.pos, radius, scale);
                let mut r = rcv;
                r.acc_x = rcv.acc_x + (imp.x as i128);
                r.acc_y = rcv.acc_y + (imp.y as i128);
                self.receivers.set(i, r);
                proof {
                    assert(r@ == recv_blasted(
                        w1.recvs[i as int],
                        blast_contrib(w1.recvs, w1.cfg, center@, i as int),
                    ));
                    assert(self@.recvs =~= before.recvs.update(i as int, r@));
                    assert(self@.bombs =~= before.bombs);
                    assert(self@.recvs =~= partial_blast(w1.recvs, w1.cfg, center@, i as int + 1));
                }
            } else {
                proof {
                    assert(blast_contrib(w1.recvs, w1.cfg, center@, i as int) == (Vec2I {
                        x: 0,
                        y: 0,
                    }));
                    let idx: int = i as int;
                    assert(recv_blasted(w1.recvs[idx], Vec2I { x: 0, y: 0 }) =~= w1.recvs[idx]);
                    assert(self@.recvs =~= partial_blast(w1.recvs, w1.cfg, center@, i as int + 1));
                }
            }
            if hit {
                hit_count = hit_count + 1;
            }
            i = i + 1;
        }
        proof {
            assert(self@.recvs =~= step(w1, j as int).recvs);
            assert(hit_count == recv_hits_below(w1.recvs, w1.cfg, center@, w1.recvs.len() as int));
        }
        // collect the chain candidates that fit in the remaining query slots
        let ghost recvs_after = self@.recvs;
        let budget: usize = if hit_count >= cap {
            0
        } else {
            cap - hit_count
        };
        let mut hits: Vec<usize> = Vec::new();
        let mut elig_count: usize = 0;
        let mut k: usize = 0;
        proof {
            assert(to_ints(hits@) =~= Seq::<int>::empty());
            assert(to_ints(hits@) + bomb_hits_from(
                w1.bombs,
                w1.cfg,
                center@,
                j as int,
                budget as int,
                0,
            ) =~= bomb_hits_from(w1.bombs, w1.cfg, center@, j as int, budget as int, 0));
        }
        while k < self.bombs.len()
            invariant
                wf_world(w1),
                self@.cfg == w1.cfg,
                self@.bombs == w1.bombs,
                self@.trunc == w1.trunc,
                self@.recvs == recvs_after,
                j < w1.bombs.len(),
                center@ == w1.bombs[j as int].pos,
                r2 as int == w1.cfg.radius * w1.cfg.radius,
                k <= w1.bombs.len(),
                elig_count == bomb_elig_below(w1.bombs, w1.cfg, center@, j as int, k as int),
                elig_count <= k,
                to_ints(hits@) + bomb_hits_from(
                    w1.bombs,
                    w1.cfg,
                    center@,
                    j as int,
                    budget as int,
                    k as int,
                ) == bomb_hits_from(w1.bombs, w1.cfg, center@, j as int, budget as int, 0),
            decreases w1.bombs.len() - k,
        {
            let b = self.bombs[k];
            proof {
                assert(pos_wf(w1.bombs[k as int].pos));
                assert(pos_wf(w1.bombs[j as int].pos));
            }
            let ghost hits_old = hits@;
            let mut is_elig = false;
            if k != j && b.alive {
                let d2 = dist_sq_exec(&center, &b.pos);
                if d2 <= r2 {
                    is_elig = true;
                }
            }
            proof {
                assert(is_elig == bomb_elig(w1.bombs, w1.cfg, center@, j as int, k as int));
            }
            if is_elig {
                if elig_count < budget {
                    hits.push(k);
                    proof {
                        assert(to_ints(hits@) =~= to_ints(hits_old).push(k as int));
                        assert(bomb_hits_from(
                            w1.bombs,
                            w1.cfg,
                            center@,
                            j as int,
                            budget as int,
                            k as int,
                        ) == seq![k as int] + bomb_hits_from(
                            w1.bombs,
                            w1.cfg,
                            center@,
                            j as int,
                            budget as int,
                            k as int + 1,
                        ));
                        assert(to_ints(hits_old) + (seq![k as int] + bomb_hits_from(
                            w1.bombs,
                            w1.cfg,
                            center@,
                            j as int,
                            budget as int,
                            k as int + 1,
                        )) =~= to_ints(hits@) + bomb_hits_from(
                            w1.bombs,
                            w1.cfg,
                            center@,
                            j as int,
                            budget as int,
                            k as int + 1,
                        ));
                    }
                }
                elig_count = elig_count + 1;
            }
            k = k + 1;
        }
        // flag the bomb first, then note the truncation and remove the bomb
        let mut bj = self.bombs[j];
        bj.detonated = true;
        bj.alive = false;
        let ghost before_flag = self@;
        self.bombs.set(j, bj);
        proof {
            assert(bj@ == (BombV { pos: center@, detonated: true, alive: false }));
            assert(self@.bombs =~= before_flag.bombs.update(j as int, bj@));
            assert(self@.recvs =~= before_flag.recvs);
            lemma_count_armed_update(w1.bombs, j as int, bj@, w1.bombs.len() as int);
        }
        let truncated: bool = hit_count > cap || elig_count > cap - hit_count;
        if truncated {
            proof {
                assert(self.truncations <= dets);
                assert(dets + 1 <= w1.bombs.len());
            }
            self.truncations = self.truncations + 1;
        }
        proof {
            assert(self@.bombs =~= step(w1, j as int).bombs);
            assert(self@.recvs =~= step(w1, j as int).recvs);
            assert(truncated == (hit_count + elig_count > cap as int));
            assert(self@.trunc == step(w1, j as int).trunc);
            assert(self@ =~= step(w1, j as int));
            assert(to_ints(hits@) + bomb_hits_from(
                w1.bombs,
                w1.cfg,
                center@,
                j as int,
                budget as int,
                w1.bombs.len() as int,
            ) =~= to_ints(hits@));
            assert(budget as int == bomb_budget(w1, center@));
            // the new world is well-formed: one more detonation is on record
            let dets2 = count_detonated(self@.bombs, self@.bombs.len() as int);
            assert(dets2 == dets + 1);
            assert forall|i2: int|
                0 <= i2 < self@.recvs.len() implies pos_wf(#[trigger] self@.recvs[i2].pos)
                && acc_bounded(self@.recvs[i2].acc, dets2) by {
                assert(self@.recvs[i2] == recv_blasted(
                    w1.recvs[i2],
                    blast_contrib(w1.recvs, w1.cfg, center@, i2),
                ));
                assert(pos_wf(w1.recvs[i2].pos) && acc_bounded(w1.recvs[i2].acc, dets));
                crate::falloff::lemma_impulse_of_bounds(
                    center@,
                    w1.recvs[i2].pos,
                    w1.cfg.radius,
                    w1.cfg.scale,
                );
                assert((dets + 1) * (IMP_MAX as int) == dets * (IMP_MAX as int) + (IMP_MAX as int))
                    by (nonlinear_arith);
            }
            assert forall|k2: int|
                0 <= k2 < self@.bombs.len() implies pos_wf(#[trigger] self@.bombs[k2].pos) && (
                self@.bombs[k2].detonated ==> !self@.bombs[k2].alive) by {
                if k2 != j as int {
                    assert(self@.bombs[k2] == w1.bombs[k2]);
                }
                assert(pos_wf(w1.bombs[k2].pos));
                assert(w1.bombs[k2].detonated ==> !w1.bombs[k2].alive);
            }
            assert(0 <= self@.trunc <= dets2);
            assert(wf_world(self@));
        }
        hits
    }

    /// Resolves a detonation request for the bomb with the given id,
    /// including the whole chain reaction it triggers.
    ///
    /// A stale id (out of range, or a bomb already removed) and a bomb whose
    /// detonated flag is already set are silent no-ops, so a duplicate
    /// request racing an earlier removal has no effect.
    pub fn detonate(&mut self, bomb_id: usize)
        requires
            old(self).wf(),
        ensures
            final(self).wf(),
            final(self)@ == detonate_model(old(self)@, bomb_id as int),
    {
        let ghost w0 = self@;
        let mut queue: Vec<usize> = Vec::new();
        queue.push(bomb_id);
        proof {
            assert(to_ints(queue@) =~= seq![bomb_id as int]);
        }
        while queue.len() != 0
            invariant
                self.wf(),
                run(w0, seq![bomb_id as int]) == run(self@, to_ints(queue@)),
            decreases count_armed(self@.bombs, self@.bombs.len() as int), queue@.len(),
        {
            let ghost q_full = to_ints(queue@);
            let j = queue.remove(0);
            let ghost w1 = self@;
            let ghost q_rest = to_ints(queue@);
            proof {
                assert(q_full == seq![j as int] + q_rest) by {
                    assert(q_full =~= seq![j as int] + q_rest);
                }
                assert(q_full.subrange(1, q_full.len() as int) =~= q_rest);
                lemma_count_armed_bounds(w1.bombs, w1.bombs.len() as int);
            }
            if j < self.bombs.len() && self.bombs[j].alive && !self.bombs[j].detonated {
                let mut hits = self.blast(j);
                queue.append(&mut hits);
                proof {
                    assert(run(w1, q_full) == run(step(w1, j as int), q_rest + bomb_hits(
                        w1,
                        j as int,
                    )));
                    assert(to_ints(queue@) =~= q_rest + bomb_hits(w1, j as int));
                }
            } else {
                proof {
                    assert(!(0 <= (j as int) < w1.bombs.len() && w1.bombs[j as int].alive
                        && !w1.bombs[j as int].detonated));
                    assert(run(w1, q_full) == run(w1, q_rest));
                }
            }
            proof {
                lemma_count_armed_bounds(self@.bombs, self@.bombs.len() as int);
            }
        }
        proof {
            assert(to_ints(queue@) =~= Seq::<int>::empty());
            assert(run(self@, to_ints(queue@)) == self@);
        }
    }

    /// Contact event entry point: on its first overlap with another body a
    /// bomb issues a detonation request for itself, nothing more.
    pub fn on_bomb_collision(&mut self, bomb_id: usize)
        requires
            old(self).wf(),
        ensures
            final(self).wf(),
            final(self)@ == detonate_model(old(self)@, bomb_id as int),
    {
        self.detonate(bomb_id);
    }
}

/// The queue of pending detonation requests, as mathematical integers.
pub open spec fn to_ints(q: Seq<usize>) -> Seq<int> {
    q.map_values(|u: usize| u as int)
}

/// An armed bomb among the first `n` keeps the armed count positive.
pub proof fn lemma_count_armed_at_least_one(bombs: Seq<BombV>, j: int, n: int)
    requires
        0 <= j < n,
        !bombs[j].detonated,
    ensures
        count_armed(bombs, n) >= 1,
    decreases n,
{
    if j < n - 1 {
        lemma_count_armed_at_least_one(bombs, j, n - 1);
    } else {
        lemma_count_armed_bounds(bombs, n - 1);
    }
}

} // verus!
