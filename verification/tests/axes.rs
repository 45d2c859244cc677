//! Regularization of axes.
use glam::{DQuat, DVec3};
use topo_reconstruct::input::Point;
use topo_reconstruct::reconstruction::axes::{
    AngleLimits, Axis, AxisMeasure, Direction, Failure, MovedAxis, Policy, Regularized, classify, conclude, plan,
    summation_order,
};
use topo_reconstruct::scalar::Scalar;

fn scalar(value: f64) -> Scalar {
    Scalar { bits: value.to_bits() }
}

fn number(value: Scalar) -> f64 {
    f64::from_bits(value.bits)
}

fn scalars(values: impl IntoIterator<Item = f64>) -> Vec<Scalar> {
    values.into_iter().map(scalar).collect()
}

fn point(v: DVec3) -> Point {
    [scalar(v.x), scalar(v.y), scalar(v.z)]
}

fn vector(p: &Point) -> DVec3 {
    DVec3::new(number(p[0]), number(p[1]), number(p[2]))
}

/// Always starts from the reference points, never from a state already moved.
fn regularize(reference: &Vec<Point>, axes: &Vec<Axis>, policy: &Policy) -> Result<Regularized, Failure> {
    let places: Vec<DVec3> = reference.iter().map(vector).collect();
    let along = |axis: &Axis, points: &[DVec3]| match axis.ends.map(|n| points.get(n)) {
        [Some(a), Some(b)] => *b - *a,
        _ => DVec3::NAN,
    };
    let up = vector(&policy.up);
    let up_length = scalar(up.length());
    let up = up.normalize();
    let measures = axes
        .iter()
        .map(|axis| {
            let d = along(axis, &places);
            let cap = number(policy.maximum_movement).min(number(policy.relative_movement) * d.length());
            AxisMeasure {
                length: scalar(d.length()),
                cosine: scalar(d.normalize().dot(up).abs()),
                cap: scalar(cap),
            }
        })
        .collect();
    let angle = number(policy.angular_tolerance);
    let limits = AngleLimits { cosine: scalar(angle.cos()), sine: scalar(angle.sin()) };
    let found = plan(reference, axes, policy, &up_length, &measures, &limits)?;
    let helper = if up.z.abs() < 0.9 { DVec3::Z } else { DVec3::X };
    let u = helper.cross(up).normalize();
    let v = up.cross(u);
    let origin = places.first().copied().unwrap_or(DVec3::ZERO);
    let coordinates: Vec<[f64; 3]> = places.iter().map(|p| [u, v, up].map(|axis| axis.dot(*p - origin))).collect();
    let mut adjusted = coordinates.clone();
    for component in 0..3 {
        let groups = if component < 2 { &found.plan_groups } else { &found.height_groups };
        for group in groups {
            let values: Vec<f64> = group.iter().map(|&i| coordinates[i][component]).collect();
            let order = summation_order(&scalars(values.iter().copied()));
            let average = order.iter().map(|&k| values[k]).sum::<f64>() / values.len() as f64;
            for &i in group {
                adjusted[i][component] = average;
            }
        }
    }
    let points: Vec<DVec3> = adjusted.iter().map(|p| origin + p[0] * u + p[1] * v + p[2] * up).collect();
    let movements = scalars(points.iter().zip(&places).map(|(a, b)| a.distance(*b)));
    let allowances = scalars(found.budgets.iter().map(|b| number(*b) + 1e-10));
    let moved = axes
        .iter()
        .map(|axis| {
            let new = along(axis, &points);
            MovedAxis { length: scalar(new.length()), advance: scalar(new.dot(along(axis, &places))) }
        })
        .collect();
    let points = points.into_iter().map(point).collect();
    conclude(axes, found.directions, points, movements, &allowances, &moved, policy)
}

fn policy() -> Policy {
    Policy {
        up: point(DVec3::Z),
        angular_tolerance: scalar(0.02),
        relative_movement: scalar(0.05),
        maximum_movement: scalar(0.15),
        minimum_length: scalar(0.03),
    }
}

fn axis(a: usize, b: usize) -> Axis {
    Axis { ends: [a, b], source_elements: vec![9], protected: false }
}

fn places(points: &[[f64; 3]]) -> Vec<Point> {
    points.iter().map(|p| point(DVec3::from_array(*p))).collect()
}

fn coordinates(found: &Regularized) -> Vec<DVec3> {
    found.points.iter().map(vector).collect()
}

fn refusal(points: &[[f64; 3]], axes: Vec<Axis>, policy: &Policy) -> Failure {
    regularize(&places(points), &axes, policy).unwrap_err()
}

#[test]
fn stacked_columns_share_one_vertical_axis() {
    let source = places(&[[0., 0., 0.], [0.01, 0., 3.], [0.02, 0., 6.]]);
    let result = regularize(&source, &vec![axis(0, 1), axis(1, 2)], &policy()).unwrap();
    let p = coordinates(&result);
    assert_eq!(p[0].x, p[1].x);
    assert_eq!(p[1].x, p[2].x);
    assert_eq!(p[2].z, 6.);
    assert_eq!(result.source_elements, vec![vec![9], vec![9]]);
    assert_eq!(result.directions, vec![Direction::Vertical, Direction::Vertical]);
}

#[test]
fn horizontal_beam_keeps_plan_direction() {
    let source = places(&[[0., 0., 1.], [3., 4., 1.01]]);
    let result = regularize(&source, &vec![axis(0, 1)], &policy()).unwrap();
    let p = coordinates(&result);
    assert_eq!(p[0].z, p[1].z);
    assert_eq!([p[1].x, p[1].y], [3., 4.]);
    assert_eq!(result.directions, vec![Direction::Horizontal]);
}

#[test]
fn small_angle_does_not_override_movement_budget() {
    assert_eq!(refusal(&[[0., 0., 0.], [1., 0., 100.]], vec![axis(0, 1)], &policy()), Failure::BudgetExceeded);
}

#[test]
fn protected_axis_blocks_incompatible_group_movement() {
    let mut protected = axis(1, 2);
    protected.protected = true;
    assert_eq!(
        refusal(&[[0., 0., 0.], [0.01, 0., 3.], [2., 0., 5.]], vec![axis(0, 1), protected], &policy()),
        Failure::ProtectedAxis
    );
}

#[test]
fn idempotent_and_covariant_with_vertical() {
    let source = [[0., 0., 0.], [0.01, 0., 3.], [3.01, 4., 3.01]];
    let axes = vec![axis(0, 1), axis(1, 2)];
    let first = regularize(&places(&source), &axes, &policy()).unwrap();
    let second = regularize(&first.points, &axes, &policy()).unwrap();
    assert!(second.movements.iter().all(|d| number(*d) < 1e-10));
    let rotation = DQuat::from_axis_angle(DVec3::new(1., 2., 3.).normalize(), 0.73);
    let offset = DVec3::new(100., -20., 30.);
    let transformed = source.iter().map(|p| point(rotation * DVec3::from_array(*p) + offset)).collect();
    let mut config = policy();
    config.up = point(rotation * DVec3::Z);
    let result = regularize(&transformed, &axes, &config).unwrap();
    for (a, b) in coordinates(&result).into_iter().zip(coordinates(&first)) {
        assert!(a.distance(rotation * b + offset) < 1e-10);
    }
}

#[test]
fn broken_input_and_short_axes_are_refused() {
    let points = [[0., 0., 0.], [0., 0., 3.]];
    assert_eq!(refusal(&points, vec![axis(0, 2)], &policy()), Failure::InvalidInput);
    assert_eq!(refusal(&points, vec![axis(1, 1)], &policy()), Failure::InvalidInput);
    assert_eq!(refusal(&[[0., 0., 0.], [0., 0., f64::NAN]], vec![axis(0, 1)], &policy()), Failure::InvalidInput);
    let mut flat = policy();
    flat.up = point(DVec3::ZERO);
    assert_eq!(refusal(&points, vec![axis(0, 1)], &flat), Failure::InvalidInput);
    let mut wide = policy();
    wide.angular_tolerance = scalar(1.);
    assert_eq!(refusal(&points, vec![axis(0, 1)], &wide), Failure::InvalidInput);
    assert_eq!(refusal(&[[0., 0., 0.], [0., 0., 0.02]], vec![axis(0, 1)], &policy()), Failure::DegenerateAxis);
}

#[test]
fn directions_go_by_the_angle_to_the_vertical() {
    let limits = AngleLimits { cosine: scalar(0.02f64.cos()), sine: scalar(0.02f64.sin()) };
    let direction = |cosine: f64| {
        classify(&AxisMeasure { length: scalar(1.), cosine: scalar(cosine), cap: scalar(1.) }, &limits)
    };
    assert_eq!(direction(1.), Direction::Vertical);
    assert_eq!(direction(0.5), Direction::Inclined);
    assert_eq!(direction(0.01), Direction::Horizontal);
    assert_eq!(summation_order(&scalars([3., -1., 2.])), vec![1, 2, 0]);
}
