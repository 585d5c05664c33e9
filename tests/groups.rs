use miratope_groups::{into_pairs, Cox, Group, GroupItem, MatrixItem};
use nalgebra::{DMatrix, Matrix3, Quaternion, Rotation3, UnitQuaternion};

/// Tolerance for comparing matrix entries.
const EPS: f64 = 1e-6;

/// A square matrix of floats as a group element.
#[derive(Clone, Debug)]
struct Mat(DMatrix<f64>);

impl GroupItem for Mat {
    fn id(dim: usize) -> Self {
        Mat(DMatrix::identity(dim, dim))
    }

    fn combine(&self, other: &Self) -> Self {
        Mat(&self.0 * &other.0)
    }

    fn same(&self, other: &Self) -> bool {
        self.0.shape() == other.0.shape()
            && self.0.iter().zip(other.0.iter()).all(|(a, b)| (a - b).abs() < EPS)
    }

    fn bucket(&self) -> u64 {
        let mut h: u64 = 0;
        for x in self.0.iter() {
            let r = (x * 1e4).round() as i64;
            h = h.wrapping_mul(1_000_003).wrapping_add(r as u64);
        }
        h
    }
}

impl MatrixItem for Mat {
    fn negated(&self) -> Self {
        Mat(-&self.0)
    }

    fn reflection(dim: usize, idx: usize) -> Self {
        let mut m = DMatrix::identity(dim, dim);
        m[(idx, idx)] = -1.0;
        Mat(m)
    }

    fn rotation(n: u32) -> Self {
        let (s, c) = (std::f64::consts::TAU / n as f64).sin_cos();
        Mat(DMatrix::from_row_slice(2, 2, &[c, -s, s, c]))
    }

    fn direct_sum(&self, other: &Self) -> Self {
        let d1 = self.0.nrows();
        let d = d1 + other.0.nrows();
        Mat(DMatrix::from_fn(d, d, |i, j| {
            if i < d1 && j < d1 {
                self.0[(i, j)]
            } else if i >= d1 && j >= d1 {
                other.0[(i - d1, j - d1)]
            } else {
                0.0
            }
        }))
    }

    fn has_positive_determinant(&self) -> bool {
        self.0.determinant() > 0.0
    }

    fn coxeter_reflections(cox: &Cox) -> Vec<Self> {
        let n = cox.rank();
        let gram = DMatrix::from_fn(n, n, |i, j| {
            -(std::f64::consts::PI / cox.label(i, j) as f64).cos()
        });
        let l = gram.cholesky().expect("not a finite Coxeter group").l();
        (0..n)
            .map(|i| {
                let v = l.row(i).transpose();
                Mat(DMatrix::identity(n, n) - 2.0 * &v * v.transpose())
            })
            .collect()
    }

    fn swirl_product(&self, other: &Self) -> Self {
        let q = to_quat(&self.0);
        let r = to_quat(&other.0);
        let cols = [
            q,
            Quaternion::from([q.w, q.k, -q.j, -q.i]),
            Quaternion::from([-q.k, q.w, q.i, -q.j]),
            Quaternion::from([q.j, -q.i, q.w, -q.k]),
        ];
        Mat(DMatrix::from_iterator(
            4,
            4,
            cols.iter().flat_map(|c| {
                let p = (c * r).coords;
                [p[3], p[0], p[1], p[2]]
            }),
        ))
    }
}

fn to_quat(m: &DMatrix<f64>) -> Quaternion<f64> {
    let m3: Matrix3<f64> = m.fixed_view::<3, 3>(0, 0).into();
    *UnitQuaternion::from_rotation_matrix(&Rotation3::from_matrix_unchecked(m3)).quaternion()
}

/// Checks the order of a group and of its rotation subgroup.
fn check(group: Group<Mat>, order: usize, rot_order: usize, name: &str) {
    let group = group.cache();
    assert_eq!(group.clone().count(), order, "{} does not have the expected order.", name);
    assert_eq!(
        group.rotations().count(),
        rot_order,
        "The rotational group of {} does not have the expected order.",
        name
    );
}

fn gcd(a: u32, b: u32) -> u32 {
    if b == 0 {
        a
    } else {
        gcd(b, a % b)
    }
}

#[test]
fn i() {
    for n in 1..=10 {
        check(Group::trivial(n), 1, 1, &format!("I^{}", n))
    }
}

#[test]
fn pm_i() {
    for n in 1..=10 {
        check(Group::central_inv(n), 2, (n + 1) % 2 + 1, &format!("±I{}", n))
    }
}

#[test]
fn dihedral() {
    for n in 2..=10 {
        for d in 1..n {
            if gcd(n, d) != 1 {
                continue;
            }
            let n_usize = n as usize;
            check(Group::dihedral_2(n), 2 * n_usize, n_usize, &format!("I2({})", n));
        }
    }
}

#[test]
fn a3_p_swirl_i2xi_p() {
    for n in 2..10 {
        let order = 24 * (n as usize);
        check(
            Group::simplex(3).rotations().swirl(Group::cyclic(n).pad(1)),
            order,
            order,
            &format!("A3⁺ @ (I2({}) × I)", n),
        )
    }
}

#[test]
fn simplex() {
    let mut order = 2;
    for n in 2..=6 {
        order *= n + 1;
        check(Group::simplex(n), order, order / 2, &format!("A{}", n))
    }
}

#[test]
fn pm_an() {
    let mut order = 4;
    for n in 2..=6 {
        order *= n + 1;
        check(
            Group::matrix_product(Group::simplex(n), Group::central_inv(n)),
            order,
            order / 2,
            &format!("±A{}", n),
        )
    }
}

#[test]
fn hypercube() {
    let mut order = 2;
    for n in 2..=6 {
        order *= n * 2;
        check(Group::hypercube(n), order, order / 2, &format!("BC{}", n))
    }
}

#[test]
fn h() {
    check(Group::parse_unwrap("o5o3o"), 120, 60, "H3");
    check(Group::parse_unwrap("o5o3o3o"), 14400, 7200, "H4");
}

#[test]
fn e6() {
    check(Group::parse_unwrap("o3o3o3o3o *c3o"), 51840, 25920, "E6");
}

#[test]
fn pairs() {
    assert_eq!(into_pairs(&vec![1, 2], &vec![3, 4]), vec![(1, 3), (2, 3), (1, 4), (2, 4)]);
}

#[test]
fn a3xa3() {
    let a3 = Group::parse_unwrap("o3o3o");
    let g = Group::direct_product(a3.clone(), a3);
    check(g, 576, 288, "A3×A3");
}

#[test]
fn step() {
    for n in 1..10 {
        for d in 1..n {
            let n_usize = n as usize;
            check(
                Group::step_hom(Group::cyclic(n), move |mat: &Mat| Mat(mat.0.pow(d))),
                n_usize,
                n_usize,
                "Step prismatic n-d",
            );
        }
    }
}

#[test]
fn cached_group_replays_in_order() {
    let g: Group<Mat> = Group::dihedral_2(5).cache();
    let first: Vec<Mat> = g.elements().clone();
    let second: Vec<Mat> = g.elements().clone();
    assert_eq!(first.len(), 10);
    for (a, b) in first.iter().zip(second.iter()) {
        assert_eq!(a.0, b.0);
    }
    let again = g.cache();
    for (a, b) in first.iter().zip(again.elements().iter()) {
        assert_eq!(a.0, b.0);
    }
}

#[test]
fn demihypercube_and_gosset_orders() {
    check(Group::demihypercube(4), 192, 96, "D4");
    check(Group::gosset(6), 51840, 25920, "E6 by family");
    check(Group::pentagonal(3), 120, 60, "H3 by family");
}

#[test]
fn dihedral_in_space() {
    check(Group::dihedral_3(5), 10, 5, "I2(5) in 3D");
}

#[test]
fn with_central_inv_doubles() {
    check(Group::simplex(3).with_central_inv(), 48, 24, "±A3");
}

#[test]
fn validation_of_group_axioms() {
    let a3: Group<Mat> = Group::simplex(3);
    assert!(a3.is_closed());
    assert!(a3.has_inverses(3));
    assert!(a3.contains(&Mat::id(3)));
    // Four powers of a rotation of order five are no group.
    let partial: Group<Mat> = Group::cyclic_gen(2, Mat::rotation(5), 4);
    assert!(!partial.is_closed());
    assert!(!partial.contains(&Mat::rotation(5).negated()));
}

#[test]
fn swirl_with_trivial_images_keeps_every_pair() {
    let a = Group::<Mat>::simplex(3).rotations();
    let b = Group::<Mat>::cyclic(3).pad(1);
    let g = a.swirl_hom(b, |_m: &Mat| (), |_m: &Mat| ());
    assert_eq!(g.count(), 72);
    assert_eq!(g.dim(), 4);
}
