use kepler::maths::Coordinate;
use kepler::maths::EuclideanVector;

#[test]
fn euclidean_vector_is_equal_to_self() {
    let vector = EuclideanVector { dx: 4400, dy: 7700 };
    assert_eq!(vector, vector);
}

#[test]
fn euclidean_vector_is_equal_to_vector_with_same_values() {
    let vector = EuclideanVector { dx: 4400, dy: 7700 };
    let same = EuclideanVector { dx: 4400, dy: 7700 };
    assert_eq!(vector, same);
}

#[test]
fn euclidean_vector_is_not_equal_to_vector_with_different_dx() {
    let vector = EuclideanVector { dx: 4400, dy: 7700 };
    let other = EuclideanVector { dx: 4500, dy: 7700 };
    assert_ne!(vector, other);
}

#[test]
fn euclidean_vector_is_not_equal_to_vector_with_different_dy() {
    let vector = EuclideanVector { dx: 4400, dy: 7700 };
    let other = EuclideanVector { dx: 4400, dy: 7800 };
    assert_ne!(vector, other);
}

#[test]
fn euclidean_vector_is_comparable_to_its_length() {
    let unit = EuclideanVector { dx: 1000, dy: 0 };
    let five = EuclideanVector { dx: 4000, dy: 3000 };
    assert!(unit.has_magnitude(1000));
    assert!(!unit.has_magnitude(2000));
    assert!(five.has_magnitude(5000));
    assert!(!five.has_magnitude(1000));
}

#[test]
fn magnitude_of_a_three_four_vector_is_five() {
    let vector = EuclideanVector { dx: 3000, dy: 4000 };
    assert_eq!(vector.magnitude(), 5000);
}

#[test]
fn magnitude_rounds_down() {
    // A unit step along each axis spans the square root of two.
    let vector = EuclideanVector { dx: 1000, dy: 1000 };
    assert_eq!(vector.magnitude(), 1414);
}

#[test]
fn versor_of_an_axis_aligned_vector_is_exact() {
    let vector = EuclideanVector { dx: 0, dy: -9000 };
    let versor = vector.versor();
    assert_eq!(versor, EuclideanVector { dx: 0, dy: -1000 });
}

#[test]
fn versor_of_a_three_four_vector_is_exact() {
    let vector = EuclideanVector { dx: 3000, dy: 4000 };
    let versor = vector.versor();
    assert_eq!(versor, EuclideanVector { dx: 600, dy: 800 });
    assert_eq!(versor.magnitude(), 1000);
}

#[test]
fn versor_has_unit_magnitude_within_tolerance() {
    let vectors = vec![
        EuclideanVector { dx: 4400, dy: 7700 },
        EuclideanVector { dx: -123456, dy: 654321 },
        EuclideanVector { dx: 1000, dy: -1 },
        EuclideanVector { dx: -5000000, dy: -5000001 },
    ];
    for vector in vectors {
        let magnitude = vector.versor().magnitude();
        assert!(997 <= magnitude && magnitude <= 1001);
    }
}

#[test]
fn between_points_from_the_first_toward_the_second() {
    let from = Coordinate { x: 1000, y: 2000 };
    let to = Coordinate { x: 4000, y: 6000 };
    assert_eq!(
        EuclideanVector::between(from, to),
        EuclideanVector { dx: 3000, dy: 4000 }
    );
}

#[test]
fn between_magnitude_is_the_distance_and_reverses_sign() {
    let a = Coordinate { x: -2000, y: 500 };
    let b = Coordinate { x: 1000, y: 4500 };
    let forth = EuclideanVector::between(a, b);
    let back = EuclideanVector::between(b, a);
    assert_eq!(forth.magnitude(), 5000);
    assert_eq!(forth, back.negated());
}

#[test]
fn towards_carries_the_origin_to_the_coordinate() {
    let target = Coordinate { x: -70, y: 80 };
    assert_eq!(
        EuclideanVector::towards(target),
        EuclideanVector { dx: -70, dy: 80 }
    );
}

#[test]
fn vector_arithmetic_is_fixed_point() {
    let vector = EuclideanVector { dx: 3000, dy: -4000 };
    assert_eq!(
        vector.plus(EuclideanVector { dx: 500, dy: 500 }),
        EuclideanVector { dx: 3500, dy: -3500 }
    );
    // Scaling by 1.5 (in milli-units) multiplies each component.
    assert_eq!(
        vector.scaled(1500),
        EuclideanVector { dx: 4500, dy: -6000 }
    );
    // Dividing by 2.0 halves each component, rounding toward zero.
    assert_eq!(
        vector.divided(2000),
        EuclideanVector { dx: 1500, dy: -2000 }
    );
    assert_eq!(vector.negated(), EuclideanVector { dx: -3000, dy: 4000 });
}

#[test]
fn truncation_rounds_toward_zero() {
    let vector = EuclideanVector { dx: -1001, dy: 1001 };
    assert_eq!(
        vector.divided(2000),
        EuclideanVector { dx: -500, dy: 500 }
    );
}

#[test]
fn coordinates_translate_and_subtract() {
    let origin = Coordinate::from((10, 20));
    assert_eq!(origin, Coordinate { x: 10, y: 20 });
    let moved = origin.translated(EuclideanVector { dx: -30, dy: 5 });
    assert_eq!(moved, Coordinate { x: -20, y: 25 });
    assert_eq!(moved.minus(origin), EuclideanVector { dx: -30, dy: 5 });
}
