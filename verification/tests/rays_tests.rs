use cgmath::{InnerSpace, Point3, Vector3};
use raytracer::rays::{closest_material, in_shadow, CamDir, Uv};
use raytracer::scalar::{Point, Scalar, Vector};
use raytracer::shapes::Material;

fn s(x: f32) -> Scalar {
    Scalar::from_bits(x.to_bits())
}

fn point(x: f32, y: f32, z: f32) -> Point {
    Point { x: s(x), y: s(y), z: s(z) }
}

fn hit(t: f32) -> Option<Material> {
    Some(Material { t: s(t), normal: None })
}

fn hit_with_normal(t: f32, x: f32, y: f32, z: f32) -> Option<Material> {
    Some(Material { t: s(t), normal: Some(Vector { x: s(x), y: s(y), z: s(z) }) })
}

#[test]
fn closest_material_is_the_hit_with_the_least_t() {
    let hits = vec![hit(5.0), None, hit_with_normal(2.0, 0., 1., 0.), hit(9.0), hit(3.0)];
    assert_eq!(closest_material(&hits), hit_with_normal(2.0, 0., 1., 0.));
}

#[test]
fn closest_material_scans_the_whole_scene() {
    let hits = vec![hit(1.0), hit(7.0), None, hit(9.0), hit(8.0)];
    assert_eq!(closest_material(&hits), hit(1.0));
    let hits = vec![hit(9.0), hit(8.0), None, hit(7.0), hit(1.0)];
    assert_eq!(closest_material(&hits), hit(1.0));
}

#[test]
fn closest_material_of_misses_is_a_miss() {
    assert_eq!(closest_material(&Vec::new()), None);
    assert_eq!(closest_material(&vec![None, None]), None);
}

#[test]
fn closest_material_takes_every_report_as_a_hit() {
    assert_eq!(closest_material(&vec![hit(-1.0)]), hit(-1.0));
    assert_eq!(closest_material(&vec![hit(-3.0), hit(2.0)]), hit(-3.0));
    assert_eq!(closest_material(&vec![hit(2.0), None, hit(-3.0)]), hit(-3.0));
    assert_eq!(closest_material(&vec![hit(0.01), hit(0.005), hit(6.0)]), hit(0.005));
    assert_eq!(closest_material(&vec![hit(f32::INFINITY), hit(6.0)]), hit(6.0));
    assert_eq!(closest_material(&vec![None, hit(f32::INFINITY)]), hit(f32::INFINITY));
}

#[test]
fn closest_material_does_not_depend_on_the_order() {
    let ts = [5.0f32, -3.0, 2.0, 9.0, 0.005];
    for shift in 0..ts.len() {
        let hits: Vec<_> = (0..ts.len()).map(|k| hit(ts[(k + shift) % ts.len()])).collect();
        assert_eq!(closest_material(&hits), hit(-3.0));
    }
}

#[test]
fn closest_material_counts_what_is_no_number_as_farthest() {
    assert_eq!(closest_material(&vec![hit(f32::NAN), hit(6.0)]), hit(6.0));
    assert_eq!(closest_material(&vec![hit(6.0), hit(f32::NAN)]), hit(6.0));
    assert_eq!(closest_material(&vec![hit(f32::NAN), hit(f32::INFINITY)]), hit(f32::INFINITY));
    assert_eq!(closest_material(&vec![None, hit(f32::NAN)]), hit(f32::NAN));
}

#[test]
fn closest_material_takes_the_first_of_equal_hits() {
    let hits = vec![hit_with_normal(2.0, 1., 0., 0.), hit_with_normal(2.0, 0., 1., 0.)];
    assert_eq!(closest_material(&hits), hit_with_normal(2.0, 1., 0., 0.));
}

#[test]
fn light_is_hidden_only_by_what_lies_before_it() {
    assert!(in_shadow(&hit(3.0), s(10.0)));
    assert!(!in_shadow(&hit(10.0), s(10.0)));
    assert!(!in_shadow(&hit(12.0), s(10.0)));
    assert!(!in_shadow(&None, s(10.0)));
    assert!(!in_shadow(&hit(3.0), s(f32::NAN)));
}

#[test]
fn camera_on_its_target_is_rejected() {
    assert_eq!(CamDir::new(point(1., 2., 3.), point(1., 2., 3.)), None);
    assert_eq!(CamDir::new(point(0., 0., 0.), point(-0., 0., -0.)), None);
    assert!(CamDir::new(point(0., 2., -10.), point(0., 0., 0.)).is_some());
}

#[test]
fn camera_keeps_origin_and_target() {
    let c = CamDir::new(point(0., 2., -10.), point(0., 0., 0.)).unwrap();
    assert_eq!(c.origin(), point(0., 2., -10.));
    assert_eq!(c.target(), point(0., 0., 0.));
}

#[test]
fn update_moves_the_origin_and_keeps_the_target() {
    let mut c = CamDir::new(point(0., 2., -10.), point(0., 0., 0.)).unwrap();
    c.update(point(1., 2., -9.));
    assert_eq!(c.origin(), point(1., 2., -9.));
    assert_eq!(c.target(), point(0., 0., 0.));
}

#[test]
fn update_twice_is_update_once() {
    let mut once = CamDir::new(point(0., 2., -10.), point(0., 0., 0.)).unwrap();
    let mut twice = once;
    once.update(point(3., 2., -7.));
    twice.update(point(3., 2., -7.));
    twice.update(point(3., 2., -7.));
    assert_eq!(once, twice);
}

#[test]
fn update_onto_the_target_is_not_made() {
    let mut c = CamDir::new(point(0., 2., -10.), point(0., 0., 0.)).unwrap();
    c.update(point(0., 0., 0.));
    assert_eq!(c.origin(), point(0., 2., -10.));
    assert_eq!(c.target(), point(0., 0., 0.));
}

#[test]
fn uv_follows_its_formula() {
    assert_eq!(CamDir::uv(0, 0, 640, 480), Uv { u: -640, v: 480, den: 960 });
    assert_eq!(CamDir::uv(640, 480, 640, 480), Uv { u: 640, v: -480, den: 960 });
    assert_eq!(CamDir::uv(160, 360, 640, 480), Uv { u: -320, v: -240, den: 960 });
    for &(x, y, w, h) in &[(3usize, 7usize, 16usize, 9usize), (100, 20, 640, 480), (0, 0, 1, 1)] {
        let uv = CamDir::uv(x, y, w, h);
        let u = uv.u as f32 / uv.den as f32;
        let v = uv.v as f32 / uv.den as f32;
        let u_expected = (x as f32 / w as f32 - 0.5) * (w as f32 / h as f32);
        let v_expected = -(y as f32 / h as f32 - 0.5);
        assert!((u - u_expected).abs() < 1e-5);
        assert!((v - v_expected).abs() < 1e-5);
    }
}

#[test]
fn uv_does_not_overflow() {
    let uv = CamDir::uv(usize::MAX, usize::MAX, usize::MAX, usize::MAX);
    assert_eq!(uv.u, usize::MAX as i128);
    assert_eq!(uv.v, -(usize::MAX as i128));
    assert_eq!(uv.den, 2 * (usize::MAX as i128));
    assert_eq!(CamDir::uv(5, 5, 10, 0).den, 0);
}

#[test]
fn center_pixel_looks_forward() {
    let (w, h) = (640usize, 480usize);
    let uv = CamDir::uv(w / 2, h / 2, w, h);
    assert_eq!((uv.u, uv.v), (0, 0));
    let odd = CamDir::uv(641 / 2, 481 / 2, 641, 481);
    assert_eq!((odd.u, odd.v, odd.den), (-1, 1, 962));

    let c = CamDir::new(point(0., 2., -10.), point(0., 0., 0.)).unwrap();
    let at = |p: Point| {
        Point3::new(f32::from_bits(p.x.bits), f32::from_bits(p.y.bits), f32::from_bits(p.z.bits))
    };
    let forward: Vector3<f32> = (at(c.target()) - at(c.origin())).normalize();
    let right = Vector3::new(0., 1., 0.).cross(forward).normalize();
    let up = forward.cross(right).normalize();
    let u = uv.u as f32 / uv.den as f32;
    let v = uv.v as f32 / uv.den as f32;
    let direction = (u * right + v * up + 2. * forward).normalize();
    assert!((direction - forward).magnitude() < 1e-5);
    assert!(forward.dot(right).abs() < 1e-5);
    assert!(forward.dot(up).abs() < 1e-5);
    assert!((up.magnitude() - 1.0).abs() < 1e-5);
}
