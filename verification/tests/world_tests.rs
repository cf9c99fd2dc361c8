//! The detonation cascade on concrete worlds: single detonations, idempotent
//! requests, chain reactions, impulse summation and query-cap truncation.

use blastcore::falloff::impulse;
use blastcore::world::Config;
use blastcore::{BombSpawn, Pos, World};

fn default_world() -> World {
    World::new(Config::default())
}

#[test]
fn lone_bomb_contact_detonates_and_removes_it() {
    // spawn one bomb at (300, -130); the contact event fires; no other bomb
    // is registered: exactly one removal and no chain detonation
    let mut w = default_world();
    w.spawn_bombs(&BombSpawn(vec![Pos::from_units(300, -130)]));
    assert_eq!(w.bomb_count(), 1);
    assert!(w.bomb_alive(0));
    assert!(!w.bomb_detonated(0));
    w.on_bomb_collision(0);
    assert!(w.bomb_detonated(0));
    assert!(!w.bomb_alive(0));
    assert_eq!(w.truncation_count(), 0);
}

#[test]
fn duplicate_detonation_request_is_a_silent_no_op() {
    let mut w = default_world();
    w.spawn_bombs(&BombSpawn(vec![Pos::from_units(0, 0)]));
    let r = w.add_receiver(Pos::from_units(60, 0));
    w.detonate(0);
    let first = w.accumulated_impulse(r);
    assert_eq!(first, (2_561_352_000_000, 0));
    w.detonate(0);
    assert_eq!(w.accumulated_impulse(r), first);
    assert_eq!(w.truncation_count(), 0);
}

#[test]
fn stale_request_changes_nothing() {
    let mut w = default_world();
    w.spawn_bombs(&BombSpawn(vec![Pos::from_units(0, 0)]));
    w.detonate(7);
    assert!(w.bomb_alive(0));
    assert!(!w.bomb_detonated(0));
}

#[test]
fn tight_cluster_chains_every_bomb_exactly_once() {
    // three bombs all mutually inside each other's blast radius: one contact
    // event detonates and removes all three, never more
    let mut w = default_world();
    w.spawn_bombs(&BombSpawn(vec![
        Pos::from_units(0, 0),
        Pos::from_units(10, 0),
        Pos::from_units(0, 10),
    ]));
    w.on_bomb_collision(0);
    for i in 0..3 {
        assert!(w.bomb_detonated(i));
        assert!(!w.bomb_alive(i));
    }
}

#[test]
fn chain_does_not_reach_bombs_outside_the_radius() {
    let mut w = default_world();
    w.spawn_bombs(&BombSpawn(vec![
        Pos::from_units(0, 0),
        Pos::from_units(500, 0),
    ]));
    w.detonate(0);
    assert!(w.bomb_detonated(0));
    assert!(!w.bomb_alive(0));
    assert!(!w.bomb_detonated(1));
    assert!(w.bomb_alive(1));
}

#[test]
fn overlapping_blasts_sum_their_impulses_in_any_order() {
    // two bombs 200 units apart, a receiver midway inside both radii: its
    // accumulated impulse is the vector sum of the two single-blast impulses,
    // whichever bomb detonates first
    let a = Pos::from_units(0, 0);
    let b = Pos::from_units(200, 0);
    let mid = Pos::from_units(100, 0);
    let cfg = Config::default();
    let imp_a = impulse(&a, &mid, cfg.explosion_radius, cfg.impulse_scale);
    let imp_b = impulse(&b, &mid, cfg.explosion_radius, cfg.impulse_scale);
    assert_eq!(imp_a.x, 1_870_728_000_000);
    assert_eq!(imp_b.x, -1_870_728_000_000);

    let mut w1 = default_world();
    w1.spawn_bombs(&BombSpawn(vec![a, b]));
    let r1 = w1.add_receiver(mid);
    w1.detonate(0);
    w1.detonate(1);
    let acc1 = w1.accumulated_impulse(r1);
    assert_eq!(
        acc1,
        (
            (imp_a.x as i128) + (imp_b.x as i128),
            (imp_a.y as i128) + (imp_b.y as i128)
        )
    );
    assert_eq!(acc1, (0, 0));

    let mut w2 = default_world();
    w2.spawn_bombs(&BombSpawn(vec![a, b]));
    let r2 = w2.add_receiver(mid);
    w2.detonate(1);
    w2.detonate(0);
    assert_eq!(w2.accumulated_impulse(r2), acc1);
}

#[test]
fn query_cap_truncates_and_is_counted() {
    let cfg = Config {
        explosion_radius: 120_000_000,
        impulse_scale: 3_000_000,
        max_query_hits: 1,
    };
    let mut w = World::new(cfg);
    w.spawn_bombs(&BombSpawn(vec![Pos::from_units(0, 0)]));
    let near = w.add_receiver(Pos::from_units(10, 0));
    let far = w.add_receiver(Pos::from_units(20, 0));
    w.detonate(0);
    // the first in-range receiver takes the only query slot
    assert_eq!(w.accumulated_impulse(near), (2_950_383_000_000, 0));
    assert_eq!(w.accumulated_impulse(far), (0, 0));
    assert_eq!(w.truncation_count(), 1);
}

#[test]
fn taking_the_accumulated_impulse_clears_it() {
    let mut w = default_world();
    w.spawn_bombs(&BombSpawn(vec![Pos::from_units(0, 0)]));
    let r = w.add_receiver(Pos::from_units(60, 0));
    w.detonate(0);
    let taken = w.take_accumulated_impulse(r);
    assert_eq!(taken, (2_561_352_000_000, 0));
    assert_eq!(w.accumulated_impulse(r), (0, 0));
}

#[test]
fn session_end_removes_every_bomb() {
    let mut w = default_world();
    w.spawn_bombs(&BombSpawn(vec![
        Pos::from_units(0, 0),
        Pos::from_units(500, 0),
    ]));
    w.detonate(0);
    w.despawn_all();
    assert!(!w.bomb_alive(0));
    assert!(!w.bomb_alive(1));
    // a request against a despawned, never-detonated bomb is a no-op
    w.detonate(1);
    assert!(!w.bomb_detonated(1));
}

#[test]
fn empty_spawn_request_adds_nothing() {
    let mut w = default_world();
    w.spawn_bombs(&BombSpawn(vec![]));
    assert_eq!(w.bomb_count(), 0);
}

#[test]
fn receiver_at_the_epicenter_takes_the_fallback_impulse() {
    // degenerate geometry: the receiver sits exactly on the bomb; the
    // deterministic fallback pushes it along the positive x axis
    let mut w = default_world();
    w.spawn_bombs(&BombSpawn(vec![Pos::from_units(25, -60)]));
    let r = w.add_receiver(Pos::from_units(25, -60));
    w.detonate(0);
    assert_eq!(w.accumulated_impulse(r), (3_006_480_000_000, 0));
}

#[test]
fn spawn_records_the_requested_positions() {
    let mut w = default_world();
    let p = Pos::from_units(42, -7);
    w.spawn_bombs(&BombSpawn(vec![p]));
    assert_eq!(w.bomb_pos(0), p);
    let r = w.add_receiver(Pos::from_units(1, 2));
    assert_eq!(w.receiver_pos(r), Pos::from_units(1, 2));
    w.set_receiver_pos(r, Pos::from_units(3, 4));
    assert_eq!(w.receiver_pos(r), Pos::from_units(3, 4));
}
