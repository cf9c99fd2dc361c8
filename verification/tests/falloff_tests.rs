//! The falloff curve on concrete geometry: epicenter maximum, edge cutoff,
//! distance monotonicity and exact directional scaling.

use blastcore::falloff::impulse;
use blastcore::Pos;

const RADIUS: u64 = 120_000_000;
const SCALE: u64 = 3_000_000;

#[test]
fn epicenter_is_full_magnitude_along_x() {
    let o = Pos::from_units(0, 0);
    let imp = impulse(&o, &o, RADIUS, SCALE);
    // slightly above the nominal maximum of 3_000_000 units, by design
    assert_eq!(imp.x, 3_006_480_000_000);
    assert_eq!(imp.y, 0);
    assert!(imp.x as u64 >= SCALE * 1_000_000);
}

#[test]
fn at_and_beyond_the_edge_the_impulse_is_zero() {
    let o = Pos::from_units(0, 0);
    let edge = impulse(&o, &Pos::from_units(120, 0), RADIUS, SCALE);
    assert_eq!((edge.x, edge.y), (0, 0));
    let beyond = impulse(&o, &Pos::from_units(130, 0), RADIUS, SCALE);
    assert_eq!((beyond.x, beyond.y), (0, 0));
}

#[test]
fn magnitude_is_non_increasing_with_distance() {
    let o = Pos::from_units(0, 0);
    let m0 = impulse(&o, &o, RADIUS, SCALE).x;
    let m30 = impulse(&o, &Pos::from_units(30, 0), RADIUS, SCALE).x;
    let m60 = impulse(&o, &Pos::from_units(60, 0), RADIUS, SCALE).x;
    let m90 = impulse(&o, &Pos::from_units(90, 0), RADIUS, SCALE).x;
    let m120 = impulse(&o, &Pos::from_units(120, 0), RADIUS, SCALE).x;
    assert_eq!(m30, 2_821_215_000_000);
    assert_eq!(m90, 2_122_455_000_000);
    assert!(m0 >= m30 && m30 >= m60 && m60 >= m90 && m90 >= m120);
    assert_eq!(m120, 0);
}

#[test]
fn half_radius_impulse_matches_tuned_curve() {
    // bomb at the origin, radius 120, scale 3,000,000, receiver at (60, 0):
    // the blast fraction is one half and the impulse points along (1, 0)
    let o = Pos::from_units(0, 0);
    let imp = impulse(&o, &Pos::from_units(60, 0), RADIUS, SCALE);
    assert_eq!(imp.x, 2_561_352_000_000);
    assert_eq!(imp.y, 0);
}

#[test]
fn direction_follows_the_origin_to_target_axis() {
    let o = Pos::from_units(0, 0);
    let left = impulse(&o, &Pos::from_units(-60, 0), RADIUS, SCALE);
    assert_eq!((left.x, left.y), (-2_561_352_000_000, 0));
    let up = impulse(&o, &Pos::from_units(0, 60), RADIUS, SCALE);
    assert_eq!((up.x, up.y), (0, 2_561_352_000_000));
    let diag = impulse(&o, &Pos::from_units(60, 60), RADIUS, SCALE);
    assert_eq!((diag.x, diag.y), (1_571_143_198_281, 1_571_143_198_281));
}

#[test]
fn translation_does_not_change_the_impulse() {
    let imp_origin = impulse(
        &Pos::from_units(0, 0),
        &Pos::from_units(60, 0),
        RADIUS,
        SCALE,
    );
    let imp_moved = impulse(
        &Pos::from_units(300, -130),
        &Pos::from_units(360, -130),
        RADIUS,
        SCALE,
    );
    assert_eq!((imp_origin.x, imp_origin.y), (imp_moved.x, imp_moved.y));
}
