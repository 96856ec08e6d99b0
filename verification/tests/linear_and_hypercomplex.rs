use lib::hypercomplex::{Complex, Dual, Quaternion};
use lib::lattice::{cell_corners_2d, cell_corners_3d, cell_offsets_2d, cell_offsets_3d, cell_offsets_4d};
use lib::linear::{Vector2, Vector3, Vector4};

fn v3(x: i64, y: i64, z: i64) -> Vector3<i64> {
    Vector3::new(x, y, z)
}

fn same3(a: Vector3<i64>, b: Vector3<i64>) -> bool {
    a.to_array() == b.to_array()
}

#[test]
fn vector_arithmetic() {
    let a = v3(1, 2, 3);
    let b = v3(4, -5, 6);
    assert!(same3(a + b, v3(5, -3, 9)));
    assert!(same3(a - b, v3(-3, 7, -3)));
    assert!(same3(-a, v3(-1, -2, -3)));
    assert!(same3(a * 3, v3(3, 6, 9)));
    assert!(same3(v3(9, -6, 3) / 3, v3(3, -2, 1)));
    assert!(same3(a << 2, v3(4, 8, 12)));
    assert!(same3(v3(8, 16, -8) >> 3, v3(1, 2, -1)));
    assert_eq!(a.dot(b), 4 - 10 + 18);
    assert_eq!(a.norm_squared(), 14);
    assert!(same3(v3(1, 0, 0).cross(v3(0, 1, 0)), v3(0, 0, 1)));
    assert!(same3(Vector3::splat(7), v3(7, 7, 7)));
}

#[test]
fn vector_conversions() {
    let a: Vector3<i64> = Vector3::from((1, 2, 3));
    assert_eq!(a.to_array(), [1, 2, 3]);
    let shrunk: Vector2<i64> = Vector2::from(a);
    assert_eq!(shrunk.to_array(), [1, 2]);
    let grown: Vector4<i64> = Vector4::from(shrunk);
    assert_eq!(grown.to_array(), [1, 2, 0, 0]);
    let back: Vector4<i64> = Vector4::from(a);
    assert_eq!(back.to_array(), [1, 2, 3, 0]);
}

#[test]
fn lattice_cells() {
    let offsets = cell_offsets_2d();
    let listed: Vec<[i128; 2]> = offsets.iter().map(|v| v.to_array()).collect();
    assert_eq!(listed, vec![[0, 0], [1, 0], [0, 1], [1, 1]]);
    let corners = cell_corners_2d(Vector2::new(5, -3));
    let listed: Vec<[i128; 2]> = corners.iter().map(|v| v.to_array()).collect();
    assert_eq!(listed, vec![[5, -3], [6, -3], [5, -2], [6, -2]]);
    assert_eq!(cell_offsets_3d()[5].to_array(), [1, 0, 1]);
    assert_eq!(cell_offsets_4d()[13].to_array(), [1, 0, 1, 1]);
    assert_eq!(cell_corners_3d(Vector3::new(i128::MAX, 0, 0))[1].to_array(), [i128::MIN, 0, 0]);
}

#[test]
fn complex_and_dual_products() {
    let p = Complex::new(1i64, 2) * Complex::new(3, 4);
    assert_eq!((p.re, p.im), (-5, 10));
    let q = Complex::new(-5i64, 10) / Complex::new(3, 4);
    assert_eq!((q.re, q.im), (1, 2));
    let c = Complex::new(3i64, 4);
    assert_eq!(c.norm_squared(), 25);
    let conj = c.conjugate();
    assert_eq!((conj.re, conj.im), (3, -4));
    let d = Dual::new(3i64, 1) * Dual::new(3, 1);
    assert_eq!((d.real, d.dual), (9, 6));
    let s = Dual::new(2i64, 5).scale(3);
    assert_eq!((s.real, s.dual), (6, 15));
    let r = Dual::new(8i64, 4) / Dual::new(2, 0);
    assert_eq!((r.real, r.dual), (4, 2));
}

#[test]
fn quaternion_units() {
    let i = Quaternion::new(0i64, 1, 0, 0);
    let j = Quaternion::new(0i64, 0, 1, 0);
    let k = i * j;
    assert_eq!((k.w, k.x, k.y, k.z), (0, 0, 0, 1));
    let back = j * i;
    assert_eq!((back.w, back.x, back.y, back.z), (0, 0, 0, -1));
    let q = Quaternion::new(1i64, 2, 3, 4);
    assert_eq!(q.norm_squared(), 30);
    let unit = q / q;
    assert_eq!((unit.w, unit.x, unit.y, unit.z), (1, 0, 0, 0));
}

#[test]
fn vector_combinators_and_bounds() {
    let a = v3(3, -1, 7);
    let b = v3(2, 5, 7);
    assert_eq!(a.map(|c| c * 2).to_array(), [6, -2, 14]);
    assert_eq!(a.zip_map(b, |l, r| l - r).to_array(), [1, -6, 0]);
    assert!(a.all(|c| c > -2));
    assert!(!a.all(|c| c > 0));
    assert!(a.any(|c| c < 0));
    assert!(!a.any(|c| c > 10));
    assert_eq!(a.fold(0, |acc, c| acc * 10 + c), 3 * 100 - 10 + 7);
    assert_eq!(a.component_min(b).to_array(), [2, -1, 7]);
    assert_eq!(a.component_max(b).to_array(), [3, 5, 7]);
    assert_eq!(a.min_component(), -1);
    assert_eq!(a.max_component(), 7);
    assert_eq!(a.clamp(v3(0, 0, 0), v3(4, 4, 4)).to_array(), [3, 0, 4]);
    assert!(v3(0, 1, 2).is_within(v3(0, 0, 0), v3(3, 3, 3)));
    assert!(!v3(0, 1, 3).is_within(v3(0, 0, 0), v3(3, 3, 3)));
    let mut calls = 0;
    let every = Vector4::new(1, 0, 1, 1).all(|c: i32| {
        calls += 1;
        c > 0
    });
    assert!(!every);
    assert_eq!(calls, 2);
}

#[test]
fn conjugating_twice_gives_the_number_back() {
    let c = Complex::new(3i32, -4).conjugate();
    assert_eq!((c.re, c.im), (3, 4));
    let back = c.conjugate();
    assert_eq!((back.re, back.im), (3, -4));
    let d = Dual::new(1i64, 2).conjugate();
    assert_eq!((d.real, d.dual), (1, -2));
    let again = d.conjugate();
    assert_eq!((again.real, again.dual), (1, 2));
    let wide = Complex::new(i128::MIN, i128::MAX).conjugate().conjugate();
    assert_eq!((wide.re, wide.im), (i128::MIN, i128::MAX));
}
