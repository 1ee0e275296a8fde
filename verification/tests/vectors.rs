use brush_viewer::scalar::Scalar;
use brush_viewer::vector::Vec3;

fn s(x: f32) -> Scalar {
    Scalar::from_bits(x.to_bits())
}

fn v(p: glam::Vec3) -> Vec3 {
    Vec3 { x: s(p.x), y: s(p.y), z: s(p.z) }
}

fn agrees(r: Scalar, x: f32) -> bool {
    r.bits == x.to_bits() || (x.is_nan() && r.is_nan())
}

fn all_agree(r: Vec3, p: glam::Vec3) -> bool {
    agrees(r.x, p.x) && agrees(r.y, p.y) && agrees(r.z, p.z)
}

fn samples() -> Vec<glam::Vec3> {
    let mut out = vec![
        glam::Vec3::ZERO,
        glam::Vec3::X,
        glam::Vec3::NEG_Y,
        glam::Vec3::new(-0.0, 0.0, f32::NAN),
        glam::Vec3::new(f32::INFINITY, f32::NEG_INFINITY, 1.0),
        glam::Vec3::new(1e-40, -3e38, 2e38),
    ];
    let mut x: u32 = 0xdead_beef;
    let mut next = || {
        x ^= x << 13;
        x ^= x >> 17;
        x ^= x << 5;
        (x as f32 / u32::MAX as f32) * 20.0 - 10.0
    };
    for _ in 0..150 {
        out.push(glam::Vec3::new(next(), next(), next()));
    }
    out
}

#[test]
fn vectors_agree_with_glam() {
    let all = samples();
    for &p in &all {
        assert!(agrees(v(p).length(), p.length()), "{p:?}");
        assert!(all_agree(v(p).normalized(), p.normalize()), "{p:?}");
        for &q in &all {
            assert!(all_agree(v(p).plus(v(q)), p + q));
            assert!(all_agree(v(p).minus(v(q)), p - q));
            assert!(all_agree(v(p).times(v(q)), p * q));
            assert!(all_agree(v(p).scaled(s(q.x)), p * q.x));
            assert!(agrees(v(p).dot(v(q)), p.dot(q)));
            assert!(all_agree(v(p).lesser(v(q)), p.min(q)), "{p:?} {q:?}");
            assert!(all_agree(v(p).greater(v(q)), p.max(q)), "{p:?} {q:?}");
        }
    }
}

#[test]
fn exact_vectors() {
    let p = Vec3 { x: s(3.0), y: s(0.0), z: s(4.0) };
    assert_eq!(p.length(), s(5.0));
    assert_eq!(p.normalized().x, s(3.0 * (1.0 / 5.0)));
    assert_eq!(Vec3::splat(s(2.0)).dot(p), s(14.0));
    assert_eq!(p.lesser(Vec3::splat(s(1.0))), Vec3 { x: s(1.0), y: s(0.0), z: s(1.0) });
    assert_eq!(p.greater(Vec3::splat(s(1.0))), Vec3 { x: s(3.0), y: s(1.0), z: s(4.0) });
}
