//! The sling drag state machine and the remaining-ammunition readout.

use blastcore::sling::Velocity;
use blastcore::{BirdResources, Pos, Sling};

#[test]
fn press_near_the_anchor_grabs_the_sling() {
    let mut s = Sling::new(Pos::from_units(-300, -40));
    s.on_press(Pos::from_units(-310, -45));
    assert_eq!(s.drag_pos, Some(Pos::from_units(-310, -45)));
}

#[test]
fn press_far_from_the_anchor_does_nothing() {
    let mut s = Sling::new(Pos::from_units(-300, -40));
    s.on_press(Pos::from_units(0, 0));
    assert_eq!(s.drag_pos, None);
    assert_eq!(s.on_release(), None);
}

#[test]
fn drag_follows_the_cursor_only_while_grabbed() {
    let mut s = Sling::new(Pos::from_units(-300, -40));
    s.on_drag(Pos::from_units(-250, -40));
    assert_eq!(s.drag_pos, None);
    s.on_press(Pos::from_units(-305, -40));
    s.on_drag(Pos::from_units(-250, -100));
    assert_eq!(s.drag_pos, Some(Pos::from_units(-250, -100)));
}

#[test]
fn release_scales_the_displacement_into_a_velocity() {
    let mut s = Sling::new(Pos::from_units(-300, -40));
    s.on_press(Pos::from_units(-310, -45));
    let vel = s.on_release();
    // five times the drag-to-anchor displacement of (10, 5) units
    assert_eq!(
        vel,
        Some(Velocity {
            x: 50_000_000,
            y: 25_000_000,
        })
    );
    assert_eq!(s.drag_pos, None);
}

#[test]
fn render_position_tracks_the_drag() {
    let mut s = Sling::new(Pos::from_units(-300, -40));
    assert_eq!(s.render_pos(), Pos::from_units(-300, -40));
    s.on_press(Pos::from_units(-302, -41));
    assert_eq!(s.render_pos(), Pos::from_units(-302, -41));
}

#[test]
fn bird_readout_counts_down_with_each_launch() {
    let mut birds = BirdResources::new(3);
    assert_eq!(birds.remaining(), 3);
    birds.record_launch();
    assert_eq!(birds.birds_spawned, 1);
    assert_eq!(birds.remaining(), 2);
    birds.record_launch();
    birds.record_launch();
    assert_eq!(birds.remaining(), 0);
}
