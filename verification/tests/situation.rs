use kepler::maths::Coordinate;
use kepler::maths::EuclideanVector;
use kepler::physics::Body;
use kepler::Mark;
use kepler::Situation;

fn three_body_situation() -> Situation {
    Situation::new()
        .with(
            Body::new()
                .with_mass(70000)
                .at(Coordinate { x: 0, y: 0 })
                .named("sun"),
        )
        .with(
            Body::new()
                .with_mass(1000)
                .at(Coordinate { x: 150000, y: 0 })
                .named("planet"),
        )
        .with(
            Body::new()
                .with_mass(1000)
                .at(Coordinate { x: -400000, y: 0 })
                .named("comet"),
        )
}

#[test]
fn a_new_situation_is_empty_and_running() {
    let situation = Situation::new();
    assert_eq!(situation.bodies.len(), 0);
    assert_eq!(situation.marks.len(), 0);
    assert_eq!(situation.updates, 0);
    assert!(!situation.paused);
    assert!(!situation.fullscreen);
    assert_eq!(situation.tracked_body, None);
    assert_eq!(situation.count_forces(), 0);
}

#[test]
fn after_one_update_every_body_holds_a_force_from_each_other_body() {
    let mut situation = three_body_situation();
    situation.update();
    for body in &situation.bodies {
        assert_eq!(body.forces.len(), 2);
    }
    assert_eq!(situation.count_forces(), 6);
    assert_eq!(situation.updates, 1);
}

#[test]
fn update_while_paused_changes_nothing() {
    let mut situation = three_body_situation();
    situation.update();
    situation.toggle_pause();
    let positions: Vec<Coordinate> = situation.bodies.iter().map(|b| b.position).collect();
    let velocities: Vec<EuclideanVector> =
        situation.bodies.iter().map(|b| b.velocity).collect();
    let marks_before = situation.marks.len();
    let updates_before = situation.updates;
    for _ in 0..7 {
        situation.update();
    }
    for (i, body) in situation.bodies.iter().enumerate() {
        assert_eq!(body.position, positions[i]);
        assert_eq!(body.velocity, velocities[i]);
    }
    assert_eq!(situation.marks.len(), marks_before);
    assert_eq!(situation.updates, updates_before);
    situation.toggle_pause();
    situation.update();
    assert_eq!(situation.updates, updates_before + 1);
}

#[test]
fn marks_age_by_one_per_tick_and_are_pruned_at_the_history_bound() {
    let mut situation = Situation::new().with(
        Body::new().with_mass(1000).at(Coordinate { x: 0, y: 0 }),
    );
    for _ in 0..2004 {
        situation.update();
    }
    // Marks are laid down every fifth tick; the one from tick zero has
    // just been pruned (its age would have reached 2000), those from
    // ticks 5, 10, ..., 2000 survive with ages 1999 down to 4.
    assert_eq!(situation.marks.len(), 400);
    for mark in &situation.marks {
        assert!(mark.age >= 1);
        assert!(mark.age < 2000);
    }
    assert_eq!(situation.marks[0].age, 1999);
    assert_eq!(situation.marks[399].age, 4);
}

#[test]
fn marks_are_laid_down_every_fifth_tick() {
    let mut situation = Situation::new().with(
        Body::new().with_mass(1000).at(Coordinate { x: 0, y: 0 }),
    );
    situation.update();
    assert_eq!(situation.marks.len(), 1);
    for _ in 0..4 {
        situation.update();
    }
    assert_eq!(situation.marks.len(), 1);
    situation.update();
    assert_eq!(situation.marks.len(), 2);
}

#[test]
fn track_next_on_an_empty_situation_stays_untracked() {
    let mut situation = Situation::new();
    situation.track_next();
    assert_eq!(situation.tracked_body, None);
    situation.track_next();
    assert_eq!(situation.tracked_body, None);
}

#[test]
fn track_next_cycles_through_the_bodies_and_back_to_none() {
    let mut situation = three_body_situation();
    situation.track_next();
    assert_eq!(situation.tracked_body, Some(0));
    situation.track_next();
    assert_eq!(situation.tracked_body, Some(1));
    situation.track_next();
    assert_eq!(situation.tracked_body, Some(2));
    situation.track_next();
    assert_eq!(situation.tracked_body, None);
    situation.track_next();
    assert_eq!(situation.tracked_body, Some(0));
}

#[test]
fn updating_highlights_the_tracked_body_alone() {
    let mut situation = three_body_situation();
    situation.track_next();
    situation.track_next();
    situation.update();
    assert!(!situation.bodies[0].highlighted);
    assert!(situation.bodies[1].highlighted);
    assert!(!situation.bodies[2].highlighted);
}

#[test]
fn center_translation_recenters_on_the_tracked_body() {
    let mut situation = three_body_situation();
    assert_eq!(
        situation.center_translation(),
        EuclideanVector { dx: 0, dy: 0 }
    );
    situation.track_next();
    situation.track_next();
    assert_eq!(
        situation.center_translation(),
        EuclideanVector { dx: -150000, dy: 0 }
    );
}

#[test]
fn zoom_moves_in_quarter_binary_steps() {
    let mut situation = Situation::new();
    assert_eq!(situation.zoom(), 1000);
    situation.zoom_in();
    assert_eq!(situation.zoom(), 1189);
    situation.zoom_in();
    assert_eq!(situation.zoom(), 1414);
    situation.zoom_in();
    situation.zoom_in();
    assert_eq!(situation.zoom(), 2000);
    situation.zoom_reset();
    assert_eq!(situation.zoom(), 1000);
    situation.zoom_out();
    assert_eq!(situation.zoom(), 840);
    for _ in 0..3 {
        situation.zoom_out();
    }
    assert_eq!(situation.zoom(), 500);
}

#[test]
fn dragging_pans_the_view_by_the_dragged_distance_at_the_current_zoom() {
    let mut situation = Situation::new();
    situation.drag_started(Coordinate { x: 0, y: 0 });
    situation.dragging_to(Coordinate { x: 100, y: 50 });
    assert_eq!(
        situation.translation,
        EuclideanVector { dx: 100, dy: 50 }
    );
    assert_eq!(situation.drag_start, Coordinate { x: 100, y: 50 });
    // Zoomed in a whole binary order, the same drag pans half as far.
    situation.zoom_in();
    situation.zoom_in();
    situation.zoom_in();
    situation.zoom_in();
    situation.dragging_to(Coordinate { x: 300, y: 50 });
    assert_eq!(
        situation.translation,
        EuclideanVector { dx: 200, dy: 50 }
    );
}

#[test]
fn coincident_bodies_pull_nothing_and_do_not_break_the_tick() {
    let mut situation = Situation::new()
        .with(Body::new().with_mass(1000).at(Coordinate { x: 7, y: 7 }))
        .with(Body::new().with_mass(1000).at(Coordinate { x: 7, y: 7 }));
    situation.update();
    for body in &situation.bodies {
        assert_eq!(body.velocity, EuclideanVector { dx: 0, dy: 0 });
        assert_eq!(body.forces.len(), 1);
        assert_eq!(body.forces[0], EuclideanVector { dx: 0, dy: 0 });
    }
}

#[test]
fn a_fresh_mark_is_ageless_and_update_ages_it() {
    let mut mark = Mark::new(Coordinate { x: 3, y: 4 });
    assert_eq!(mark.position, Coordinate { x: 3, y: 4 });
    assert_eq!(mark.age, 0);
    mark.update();
    assert_eq!(mark.age, 1);
}

#[test]
fn add_appends_a_body() {
    let mut situation = Situation::new();
    situation.add(Body::new().with_mass(1000).named("alone"));
    assert_eq!(situation.bodies.len(), 1);
    assert_eq!(situation.bodies[0].name, "alone");
}

#[test]
fn two_body_motion_is_exact() {
    let mut situation = Situation::new()
        .with(Body::new().with_mass(1000).at(Coordinate { x: 0, y: 0 }))
        .with(Body::new().with_mass(1000).at(Coordinate { x: 10000, y: 10000 }));
    for _ in 0..3 {
        situation.update();
    }
    assert_eq!(situation.bodies[0].position, Coordinate { x: 30, y: 30 });
    assert_eq!(
        situation.bodies[0].velocity,
        EuclideanVector { dx: 60, dy: 60 }
    );
    assert_eq!(
        situation.bodies[1].position,
        Coordinate { x: 9970, y: 9970 }
    );
    assert_eq!(
        situation.bodies[1].velocity,
        EuclideanVector { dx: -60, dy: -60 }
    );
}

#[test]
fn a_body_reads_the_positions_other_bodies_already_moved_to() {
    // The bodies are stepped in index order within one tick: when the
    // second body gathers its pull, the first has already advanced from
    // the origin to x = 5, a distance of 5 rather than 10, and the pull
    // is four times as strong as it would be from the old position.
    let mut situation = Situation::new()
        .with(
            Body::new()
                .with_mass(1000)
                .at(Coordinate { x: 0, y: 0 })
                .moving(EuclideanVector { dx: 5000, dy: 0 }),
        )
        .with(Body::new().with_mass(1000).at(Coordinate { x: 10000, y: 0 }));
    situation.update();
    assert_eq!(situation.bodies[0].position, Coordinate { x: 5000, y: 0 });
    assert_eq!(
        situation.bodies[0].forces,
        vec![EuclideanVector { dx: 400, dy: 0 }]
    );
    assert_eq!(
        situation.bodies[1].forces,
        vec![EuclideanVector { dx: -400, dy: 0 }]
    );
    // The tick also laid a mark at each body's fresh position, already
    // one tick old.
    assert_eq!(situation.marks.len(), 2);
    assert_eq!(situation.marks[0].position, Coordinate { x: 5000, y: 0 });
    assert_eq!(situation.marks[1].position, Coordinate { x: 10000, y: 0 });
    assert_eq!(situation.marks[0].age, 1);
    assert_eq!(situation.marks[1].age, 1);
}

#[test]
fn two_attracting_bodies_fall_toward_each_other() {
    let mut situation = Situation::new()
        .with(Body::new().with_mass(50000).at(Coordinate { x: 0, y: 0 }))
        .with(Body::new().with_mass(50000).at(Coordinate { x: 20000, y: 0 }));
    for _ in 0..3 {
        situation.update();
    }
    assert!(situation.bodies[0].velocity.dx > 0);
    assert!(situation.bodies[1].velocity.dx < 0);
    assert!(situation.bodies[0].position.x > 0);
    assert!(situation.bodies[1].position.x < 20000);
}
