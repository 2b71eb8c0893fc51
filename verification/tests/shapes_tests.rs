use cgmath::{InnerSpace, Point3, Vector3};
use raytracer::scalar::Scalar;
use raytracer::shapes::{min_g0, plane_root, quadratic_root, smallest_root};
use roots::find_roots_quartic;

fn s(x: f32) -> Scalar {
    Scalar::from_bits(x.to_bits())
}

fn f(x: Option<Scalar>) -> Option<f32> {
    x.map(|t| f32::from_bits(t.to_bits()))
}

fn quadratic(a: f32, b: f32, c: f32) -> Option<f32> {
    let num = b * b - 4. * a * c;
    let t1 = (-b + num.sqrt()) / (2. * a);
    let t2 = (-b - num.sqrt()) / (2. * a);
    f(quadratic_root(s(a), s(num), s(t1), s(t2)))
}

fn sphere(
    radius: f32,
    center: Point3<f32>,
    origin: Point3<f32>,
    direction: Vector3<f32>,
) -> Option<(f32, Vector3<f32>)> {
    let o = origin - center;
    let a = direction.magnitude2();
    let b = 2. * o.dot(direction);
    let c = o.magnitude2() - radius * radius;
    quadratic(a, b, c).map(|t| (t, (o + t * direction).normalize()))
}

fn plane(
    normal: Vector3<f32>,
    point: Point3<f32>,
    origin: Point3<f32>,
    direction: Vector3<f32>,
) -> Option<(f32, Vector3<f32>)> {
    let denom = normal.dot(direction);
    let t = -normal.dot(origin - point) / denom;
    f(plane_root(s(denom), s(t))).map(|t| (t, normal))
}

fn quartic(a: f32, b: f32, c: f32, d: f32, e: f32) -> Option<f32> {
    let found = find_roots_quartic(a, b, c, d, e);
    let roots: Vec<Scalar> = found.as_ref().iter().map(|&r| s(r)).collect();
    f(smallest_root(&roots))
}

#[test]
fn sphere_seen_from_outside_is_hit_at_its_near_side() {
    let hit = sphere(1., Point3::new(0., 0., 0.), Point3::new(0., 0., -5.), Vector3::new(0., 0., 1.));
    let (t, normal) = hit.unwrap();
    assert!((t - 4.0).abs() < 1e-4, "{}", t);
    assert!((normal - Vector3::new(0., 0., -1.)).magnitude() < 1e-4);
    assert!((normal.magnitude() - 1.0).abs() < 1e-4);
}

#[test]
fn sphere_around_the_ray_origin_is_hit_at_its_radius() {
    let directions = [
        Vector3::new(1.0f32, 0., 0.),
        Vector3::new(0., -1., 0.),
        Vector3::new(1., 2., 3.).normalize(),
        Vector3::new(-3., 0.5, 1.).normalize(),
    ];
    for &radius in &[0.5f32, 1.0, 2.1, 40.0] {
        for &d in &directions {
            let origin = Point3::new(1., 2., 3.);
            let (t, normal) = sphere(radius, origin, origin, d).unwrap();
            assert!((t - radius).abs() < 1e-3 * radius, "{} {}", t, radius);
            assert!((normal.magnitude() - 1.0).abs() < 1e-4);
        }
    }
}

#[test]
fn sphere_behind_the_ray_is_missed() {
    let hit = sphere(1., Point3::new(0., 0., 0.), Point3::new(0., 0., 5.), Vector3::new(0., 0., 1.));
    assert_eq!(hit, None);
}

#[test]
fn sphere_beside_the_ray_is_missed() {
    let hit = sphere(1., Point3::new(0., 3., 0.), Point3::new(0., 0., -5.), Vector3::new(0., 0., 1.));
    assert_eq!(hit, None);
}

#[test]
fn plane_below_is_hit_from_above() {
    let hit = plane(
        Vector3::new(0., 1., 0.),
        Point3::new(0., 0., 0.),
        Point3::new(0., 5., 0.),
        Vector3::new(0., -1., 0.),
    );
    let (t, normal) = hit.unwrap();
    assert!((t - 5.0).abs() < 1e-4);
    assert_eq!(normal, Vector3::new(0., 1., 0.));
}

#[test]
fn ray_parallel_to_plane_misses() {
    let hit = plane(
        Vector3::new(0., 1., 0.),
        Point3::new(0., 0., 0.),
        Point3::new(0., 3., 0.),
        Vector3::new(1., 0., 0.),
    );
    assert_eq!(hit, None);
}

#[test]
fn plane_behind_the_ray_is_missed() {
    let hit = plane(
        Vector3::new(0., 1., 0.),
        Point3::new(0., 0., 0.),
        Point3::new(0., 5., 0.),
        Vector3::new(0., 1., 0.),
    );
    assert_eq!(hit, None);
}

#[test]
fn plane_root_rejects_zero_denominator_of_either_sign() {
    assert_eq!(plane_root(s(0.0), s(5.0)), None);
    assert_eq!(plane_root(s(-0.0), s(5.0)), None);
    assert_eq!(plane_root(s(1.0), s(5.0)), Some(s(5.0)));
    assert_eq!(plane_root(s(-2.0), s(0.01)), None);
    assert_eq!(plane_root(s(-2.0), s(f32::NAN)), None);
}

#[test]
fn min_g0_takes_the_smaller_root_above_min_t() {
    assert_eq!(f(min_g0(s(6.0), s(4.0))), Some(4.0));
    assert_eq!(f(min_g0(s(4.0), s(6.0))), Some(4.0));
    assert_eq!(f(min_g0(s(3.0), s(3.0))), Some(3.0));
}

#[test]
fn min_g0_never_returns_a_root_below_min_t() {
    assert_eq!(f(min_g0(s(5.0), s(-3.0))), Some(5.0));
    assert_eq!(f(min_g0(s(-3.0), s(5.0))), Some(5.0));
    assert_eq!(f(min_g0(s(0.005), s(2.0))), Some(2.0));
    assert_eq!(f(min_g0(s(2.0), s(0.01))), Some(2.0));
    assert_eq!(f(min_g0(s(0.0), s(7.0))), Some(7.0));
}

#[test]
fn min_g0_finds_nothing_among_invalid_roots() {
    assert_eq!(min_g0(s(-1.0), s(-2.0)), None);
    assert_eq!(min_g0(s(0.01), s(0.0)), None);
    assert_eq!(min_g0(s(f32::NAN), s(f32::NAN)), None);
    assert_eq!(min_g0(s(f32::NAN), s(-4.0)), None);
    assert_eq!(f(min_g0(s(f32::NAN), s(4.0))), Some(4.0));
}

#[test]
fn quadratic_without_real_root_misses() {
    assert_eq!(quadratic(1., 0., 1.), None);
    assert_eq!(quadratic_root(s(1.0), s(-0.5), s(3.0), s(4.0)), None);
}

#[test]
fn degenerate_quadratic_misses() {
    assert_eq!(quadratic(0., 1., -1.), None);
    assert_eq!(quadratic_root(s(0.0), s(4.0), s(3.0), s(4.0)), None);
    assert_eq!(quadratic_root(s(-0.0), s(4.0), s(3.0), s(4.0)), None);
}

#[test]
fn quadratic_with_zero_discriminant_has_one_root() {
    assert_eq!(quadratic(1., -4., 4.), Some(2.0));
}

#[test]
fn quartic_with_four_roots_gives_the_smallest() {
    let t = quartic(1., -10., 35., -50., 24.).unwrap();
    assert!((t - 1.0).abs() < 1e-3, "{}", t);
}

#[test]
fn quartic_roots_behind_the_ray_are_passed_over() {
    // (t + 1)(t - 2)(t + 3)(t - 4)
    let t = quartic(1., -2., -13., 14., 24.).unwrap();
    assert!((t - 2.0).abs() < 1e-3, "{}", t);
}

#[test]
fn quartic_without_real_root_misses() {
    assert_eq!(quartic(1., 0., 0., 0., 1.), None);
}

#[test]
fn quartic_with_only_negative_roots_misses() {
    // (t + 1)(t + 2)(t + 3)(t + 4)
    assert_eq!(quartic(1., 10., 35., 50., 24.), None);
}

#[test]
fn smallest_root_does_not_depend_on_the_order() {
    let a = vec![s(3.0), s(-1.0), s(0.5), s(2.0)];
    let b = vec![s(0.5), s(2.0), s(3.0), s(-1.0)];
    assert_eq!(f(smallest_root(&a)), Some(0.5));
    assert_eq!(f(smallest_root(&b)), Some(0.5));
    assert_eq!(smallest_root(&Vec::new()), None);
    assert_eq!(smallest_root(&vec![s(0.01), s(f32::NAN), s(-0.0)]), None);
}
