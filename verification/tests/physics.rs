use kepler::maths::Coordinate;
use kepler::maths::EuclideanVector;
use kepler::physics::Body;

#[test]
fn when_body_with_no_forces_is_updated_its_velocity_does_not_change() {
    let initial_velocity = EuclideanVector { dx: 4400, dy: 7700 };
    let mut body = Body::new().with_mass(1000).moving(initial_velocity);
    body.update();
    assert_eq!(body.velocity, initial_velocity);
}

#[test]
fn a_body_may_be_gravitationally_pulled_by_other_body() {
    let mut body = Body::new().at(Coordinate { x: 0, y: 0 }).with_mass(1000);
    let other_body = Body::new().at(Coordinate { x: 10000, y: 10000 }).with_mass(1000);

    body.add_pull_from(&other_body);
    body.update();

    assert!(body.velocity.dx > 0);
    assert!(body.velocity.dy > 0);
}

#[test]
fn a_moving_body_velocity_is_also_affected_by_gravitational_pull() {
    let initial_velocity = EuclideanVector { dx: 1000, dy: 1000 };
    let mut body = Body::new()
        .at(Coordinate { x: 0, y: 0 })
        .with_mass(1000)
        .moving(initial_velocity);
    let other_body = Body::new().at(Coordinate { x: -10000, y: 10000 }).with_mass(1000);

    body.add_pull_from(&other_body);
    body.update();

    assert!(body.velocity.dx < initial_velocity.dx);
    assert!(body.velocity.dy > initial_velocity.dy);
}

#[test]
fn a_new_body_is_at_rest_at_the_origin() {
    let body = Body::new();
    assert_eq!(body.name, "");
    assert_eq!(body.position, Coordinate { x: 0, y: 0 });
    assert_eq!(body.mass, 0);
    assert_eq!(body.radius, 0);
    assert_eq!(body.velocity, EuclideanVector { dx: 0, dy: 0 });
    assert_eq!(body.forces.len(), 0);
    assert!(!body.highlighted);
}

#[test]
fn builder_calls_set_their_fields() {
    let body = Body::new()
        .at(Coordinate { x: 150000, y: 0 })
        .moving(EuclideanVector { dx: 0, dy: 2000 })
        .with_mass(70000)
        .named("Imagirus*");
    assert_eq!(body.name, "Imagirus*");
    assert_eq!(body.position, Coordinate { x: 150000, y: 0 });
    assert_eq!(body.velocity, EuclideanVector { dx: 0, dy: 2000 });
    assert_eq!(body.mass, 70000);
}

#[test]
fn radius_grows_as_the_cube_root_of_the_volume() {
    // Mass 70 over density 3 gives volume 23.333; times 3/(4*pi) that is
    // 5.570, whose cube root is 1.772.
    assert_eq!(Body::new().with_mass(70000).radius, 1772);
    // Mass 1: ((1/3) * 0.238732)^(1/3) = 0.429.
    assert_eq!(Body::new().with_mass(1000).radius, 429);
}

#[test]
fn radius_of_a_massless_body_is_zero() {
    assert_eq!(Body::new().with_mass(0).radius, 0);
    assert_eq!(Body::new().with_mass(-5000).radius, 0);
}

#[test]
fn update_advances_position_by_the_velocity_before_integrating() {
    let mut body = Body::new()
        .at(Coordinate { x: 100, y: 200 })
        .moving(EuclideanVector { dx: 10, dy: 20 })
        .with_mass(1000);
    body.update();
    assert_eq!(body.position, Coordinate { x: 110, y: 220 });
}

#[test]
fn the_pull_between_unit_masses_ten_units_apart_is_exact() {
    let body = Body::new().at(Coordinate { x: 0, y: 0 }).with_mass(1000);
    let other = Body::new().at(Coordinate { x: 10000, y: 10000 }).with_mass(1000);
    // Distance 14.142; strength 1*1/200 = 0.005; along the diagonal
    // versor (0.707, 0.707) and scaled by gravity 10 that is 0.030 on
    // each axis after fixed-point truncation.
    assert_eq!(
        body.pull_from(&other),
        EuclideanVector { dx: 30, dy: 30 }
    );
}

#[test]
fn a_coincident_body_exerts_no_pull() {
    let body = Body::new().at(Coordinate { x: 500, y: -500 }).with_mass(1000);
    let twin = Body::new().at(Coordinate { x: 500, y: -500 }).with_mass(9000);
    assert_eq!(body.pull_from(&twin), EuclideanVector { dx: 0, dy: 0 });
}

#[test]
fn add_pull_from_appends_one_force() {
    let mut body = Body::new().at(Coordinate { x: 0, y: 0 }).with_mass(1000);
    let other = Body::new().at(Coordinate { x: 10000, y: 10000 }).with_mass(1000);
    body.add_pull_from(&other);
    body.add_pull_from(&other);
    assert_eq!(body.forces.len(), 2);
    assert_eq!(body.forces[0], EuclideanVector { dx: 30, dy: 30 });
}
