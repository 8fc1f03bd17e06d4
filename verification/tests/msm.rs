use snarkvm_curves::bls12_377::{Fr, G1Projective};
use snarkvm_curves::ProjectiveCurve;
use snarkvm_fields::PrimeField;
use snarkvm_utilities::rand::{TestRng, Uniform};
use succinct_work::coordinates::{creat_affine, creat_projective, AffineCoordinates, JacobianCoordinates};
use succinct_work::curve::{Affine, Projective};
use succinct_work::fixed_base::FixedBaseTable;
use succinct_work::msm::{msm, naive_variable_base_msm};
use succinct_work::scalar::Scalar;

fn random_scalar(rng: &mut TestRng) -> Scalar {
    Scalar::new(Fr::rand(rng).to_bigint().0)
}

fn random_projective(rng: &mut TestRng) -> JacobianCoordinates {
    let p = G1Projective::rand(rng);
    JacobianCoordinates { x: p.x.to_bigint().0, y: p.y.to_bigint().0, z: p.z.to_bigint().0 }
}

fn random_affine(rng: &mut TestRng) -> AffineCoordinates {
    let p = G1Projective::rand(rng).to_affine();
    AffineCoordinates { x: p.x.to_bigint().0, y: p.y.to_bigint().0, infinity: p.infinity }
}

fn elements(bases: &[AffineCoordinates]) -> Vec<Affine> {
    bases.iter().map(|b| b.to_element().unwrap()).collect()
}

fn coordinates(a: &Affine) -> AffineCoordinates {
    AffineCoordinates::of_element(a)
}

fn random_elements(rng: &mut TestRng, count: usize) -> Vec<Affine> {
    let table = FixedBaseTable::new(&Affine::generator());
    (0..count).map(|_| table.mul(&random_scalar(rng)).to_affine()).collect()
}

#[test]
fn variable_base_test_with_bls12() {
    const SAMPLES: usize = 1 << 10;
    for _ in 0..10 {
        let mut rng = TestRng::default();
        let v = (0..SAMPLES).map(|_| random_scalar(&mut rng)).collect::<Vec<_>>();
        let g = (0..SAMPLES).map(|_| random_affine(&mut rng)).collect::<Vec<_>>();

        let naive = naive_variable_base_msm(g.as_slice(), v.as_slice());
        let fast = msm(elements(&g).as_slice(), v.as_slice());

        assert_eq!(naive.to_affine(), coordinates(&fast.to_affine()));
    }
}

#[test]
fn variable_base_test_with_bls12_unequal_numbers() {
    const SAMPLES: usize = 1 << 10;

    let mut rng = TestRng::default();

    let v = (0..SAMPLES - 100).map(|_| random_scalar(&mut rng)).collect::<Vec<_>>();
    let g = (0..SAMPLES).map(|_| random_affine(&mut rng)).collect::<Vec<_>>();

    let naive = naive_variable_base_msm(g.as_slice(), v.as_slice());
    let fast = msm(elements(&g).as_slice(), v.as_slice());

    assert_eq!(naive.to_affine(), coordinates(&fast.to_affine()));
}

#[test]
fn double_in_place_test() {
    let (x, y, z) = (1, 2, 3);

    let g = creat_projective(x, y, z);
    assert_eq!((g.x, g.y, g.z), ([1, 0, 0, 0, 0, 0], [2, 0, 0, 0, 0, 0], [3, 0, 0, 0, 0, 0]));
    let doubled = g.double();
    println!("{doubled:?}");
    assert_eq!(doubled, g.add(&g));
    assert_ne!(doubled, g);

    let zero = creat_projective(0, 1, 0);
    assert!(zero.is_zero());
    assert_eq!(zero, JacobianCoordinates::zero());
    assert_eq!(zero.double(), zero);
    assert_eq!(zero.double(), zero.add(&zero));
}

#[test]
fn double_in_place_test_random() {
    let mut rng = TestRng::default();

    let g = random_projective(&mut rng);
    println!("{g:?}");
    let doubled = g.double();
    println!("{doubled:?}");
    assert_eq!(doubled, g.add(&g));
    assert_ne!(doubled.to_affine(), g.to_affine());

    let element = g.to_affine().to_element().unwrap().to_projective();
    assert_eq!(coordinates(&element.double().to_affine()), doubled.to_affine());
    assert!(element.double().same_point(&element.add(&element)));
}

#[test]
fn mul_bits_test() {
    let t: u64 = 1;
    let scalar = Scalar::from_u64(t);
    println!("t:{t:?}\nscalar:{scalar:?}");
    let (x, y, infinity) = (1, 2, false);

    let base = creat_affine(x, y, infinity);
    println!("base:{base:?}");
    assert_eq!((base.x, base.y, base.infinity), ([1, 0, 0, 0, 0, 0], [2, 0, 0, 0, 0, 0], false));

    let result = base.mul_bits(&scalar);

    println!("result:{result:?}");
    assert_eq!(result, creat_projective(1, 2, 1));
    assert_eq!(result.to_affine(), base);
    assert!(base.mul_bits(&Scalar::from_u64(0)).is_zero());
    assert!(creat_affine(x, y, true).mul_bits(&scalar).is_zero());
    assert_eq!(base.mul_bits(&Scalar::from_u64(2)), result.double());
}

#[test]
fn mul_bits_test_random() {
    let mut rng = TestRng::default();

    let scalar = random_scalar(&mut rng);
    let base = random_affine(&mut rng);
    println!("{scalar:?}\n\n{base:?}\n");

    let result = base.mul_bits(&scalar);

    println!("{result:?}");
    assert_eq!(result, naive_variable_base_msm(&[base], &[scalar]));
    let element = base.to_element().unwrap();
    assert_eq!(coordinates(&element.mul_bits(&scalar).to_affine()), result.to_affine());
    assert_eq!(base.mul_bits(&Scalar::from_u64(1)).to_affine(), base);
}

#[test]
fn add_assign_test() {
    let (x, y, z) = (1, 2, 3);

    let a = creat_projective(x, y, z);

    let (x, y, z) = (1, 2, 3);

    let b = creat_projective(x, y, z);

    let sum = a.add(&b);
    println!("a:{sum:?}");
    assert_eq!(sum, a.double());
    assert_eq!(a.add(&JacobianCoordinates::zero()), a);
    assert_eq!(JacobianCoordinates::zero().add(&b), b);
    assert_eq!(creat_projective(5, 7, 0).add(&creat_projective(8, 9, 0)), creat_projective(8, 9, 0));
}

#[test]
fn msm_test() {
    let bases = [(1, 1, false), (2, 2, false), (3, 3, false)];

    let bases = bases.into_iter().map(|(x, y, infinity)| creat_affine(x, y, infinity)).collect::<Vec<_>>();

    let scalars = [1, 2, 3, 4, 5, 6];
    let scalars = scalars.into_iter().map(Scalar::from_u64).collect::<Vec<_>>();

    let result = naive_variable_base_msm(bases.as_slice(), scalars.as_slice());
    println!("result:{result:?}");
    // the scalars 4, 5 and 6 pair with nothing
    assert_eq!(result, naive_variable_base_msm(bases.as_slice(), &scalars[..3]));
    let by_hand =
        bases[0].mul_bits(&scalars[0]).add(&bases[1].mul_bits(&scalars[1])).add(&bases[2].mul_bits(&scalars[2]));
    assert_eq!(result, by_hand);
    assert_ne!(result, naive_variable_base_msm(&bases[..2], scalars.as_slice()));
}

fn outside_affine(rng: &mut TestRng) -> ([u64; 6], [u64; 6], bool) {
    let p = random_affine(rng);
    (p.x, p.y, p.infinity)
}

#[test]
fn coordinates_are_checked() {
    let mut rng = TestRng::default();
    for _ in 0..10 {
        let (x, y, infinity) = outside_affine(&mut rng);
        let p = Affine::from_coordinates(x, y, infinity).unwrap();
        assert_eq!((p.x(), p.y(), p.is_infinity()), (x, y, infinity));
        assert_eq!(p.to_coordinates(), (x, y, infinity));
        // the same abscissa with another ordinate is not on the curve
        let mut other = y;
        other[0] ^= 1;
        assert!(Affine::from_coordinates(x, other, infinity).is_none());
        // a coordinate from the modulus upwards is no coordinate
        assert!(Affine::from_coordinates([u64::MAX; 6], y, infinity).is_none());
    }
    let modulus = [
        0x8508c00000000001,
        0x170b5d4430000000,
        0x1ef3622fba094800,
        0x1a22d9f300f5138f,
        0xc63b05c06ca1493b,
        0x1ae3a4617c510ea,
    ];
    assert!(Affine::from_coordinates(modulus, [1, 0, 0, 0, 0, 0], true).is_none());
    let mut below = modulus;
    below[0] -= 1;
    assert!(Affine::from_coordinates(below, below, true).is_some());
    let g = Affine::generator();
    assert!(Affine::from_coordinates(g.x(), g.y(), false).unwrap().same_coordinates(&g));
    // the point at infinity
    let zero = Affine::from_coordinates([0; 6], [1, 0, 0, 0, 0, 0], true).unwrap();
    assert!(zero.to_projective().same_point(&Projective::identity()));
    assert!(Projective::identity().to_affine().same_coordinates(&zero));
    // the point at infinity, whatever its coordinates say
    let other = Affine::from_coordinates([5, 0, 0, 0, 0, 0], [7, 0, 0, 0, 0, 0], true).unwrap();
    assert!(!other.same_coordinates(&zero));
    assert!(other.to_projective().same_point(&Projective::identity()));
    assert!(other.to_projective().to_affine().same_coordinates(&zero));
    assert!(other.mul_bits(&Scalar::from_u64(12345)).same_point(&Projective::identity()));
    assert!(g.to_projective().add_mixed(&other).to_affine().same_coordinates(&g));
    assert!(msm(&[other, g], &[Scalar::from_u64(9), Scalar::from_u64(1)]).to_affine().same_coordinates(&g));
    // on the curve y^2 = x^3 + 1, but of order 3
    assert!(creat_affine(0, 1, false).to_element().is_none());
    assert!(creat_affine(1, 1, false).to_element().is_none());
    assert!(creat_affine(0, 1, true).to_element().is_some());
    // a point on the curve that the cofactor has not been taken out of
    let mut outside = 0;
    for x in 2..40u64 {
        let fx = snarkvm_curves::bls12_377::Fq::from(x);
        if let Some(p) = <snarkvm_curves::bls12_377::G1Affine as snarkvm_curves::AffineCurve>::from_x_coordinate(fx, true) {
            assert!(Affine::from_coordinates(p.x.to_bigint().0, p.y.to_bigint().0, false).is_none());
            outside += 1;
        }
    }
    assert!(outside > 0);
}

#[test]
fn the_group_laws_hold_of_random_elements() {
    let mut rng = TestRng::default();
    let g = random_elements(&mut rng, 3);
    let (a, b, c) = (g[0].to_projective(), g[1].to_projective(), g[2].to_projective());
    assert!(a.add(&b).same_point(&b.add(&a)));
    assert!(a.add(&b).add(&c).same_point(&a.add(&b.add(&c))));
    assert!(a.add(&Projective::identity()).same_point(&a));
    assert!(Projective::identity().add(&a).same_point(&a));
    assert!(a.add_mixed(&g[1]).same_point(&a.add(&b)));
    assert!(a.double().same_point(&a.add(&a)));
    assert!(!a.add(&b).same_point(&a));
    assert!(a.to_affine().same_coordinates(&g[0]));
    assert!(!a.to_affine().same_coordinates(&g[1]));
    assert!(a.to_affine().to_projective().same_point(&a));
}

#[test]
fn scalar_multiples() {
    let g = Affine::generator();
    let two = g.to_projective().double();
    assert!(g.mul_bits(&Scalar::from_u64(0)).same_point(&Projective::identity()));
    assert!(g.mul_bits(&Scalar::from_u64(2)).same_point(&two));
    assert!(g.mul_bits(&Scalar::from_u64(5)).same_point(&two.double().add_mixed(&g)));
    // the order of the group times any element is the neutral element
    let order = Scalar::new([725501752471715841, 6461107452199829505, 6968279316240510977, 1345280370688173398]);
    assert!(g.mul_bits(&order).same_point(&Projective::identity()));
    let all_ones = Scalar::new([u64::MAX; 4]);
    let table = FixedBaseTable::new(&g);
    assert!(table.mul(&all_ones).same_point(&g.mul_bits(&all_ones)));
    assert!(table.mul(&order).same_point(&Projective::identity()));
    assert!(table.mul(&Scalar::from_u64(1)).to_affine().same_coordinates(&g));
    let mut rng = TestRng::default();
    for _ in 0..20 {
        let k = random_scalar(&mut rng);
        assert!(table.mul(&k).same_point(&g.mul_bits(&k)));
    }
}

#[test]
fn msm_of_nothing_is_the_neutral_element() {
    assert!(msm(&[], &[]).same_point(&Projective::identity()));
    assert!(naive_variable_base_msm(&[], &[]).is_zero());
    assert!(msm(&[Affine::generator()], &[]).same_point(&Projective::identity()));
    assert!(msm(&[], &[Scalar::from_u64(3)]).same_point(&Projective::identity()));
}

#[test]
fn msm_with_every_window_width() {
    let mut rng = TestRng::default();
    for count in [1usize, 2, 3, 16, 17, 40] {
        let g = random_elements(&mut rng, count);
        let v = (0..count)
            .map(|_| Scalar::new([u64::rand(&mut rng), u64::rand(&mut rng), u64::rand(&mut rng), u64::rand(&mut rng)]))
            .collect::<Vec<_>>();
        let bases = g.iter().map(coordinates).collect::<Vec<_>>();
        assert_eq!(coordinates(&msm(&g, &v).to_affine()), naive_variable_base_msm(&bases, &v).to_affine());
    }
}

#[test]
fn msm_leaves_out_the_excess() {
    let g = Affine::generator();
    let bases = vec![g, g.to_projective().double().to_affine(), g.mul_bits(&Scalar::from_u64(3)).to_affine()];
    let scalars = [1, 2, 3, 4, 5, 6].into_iter().map(Scalar::from_u64).collect::<Vec<_>>();
    let fast = msm(&bases, &scalars);
    assert!(fast.same_point(&msm(&bases, &scalars[..3])));
    assert!(fast.same_point(&g.mul_bits(&Scalar::from_u64(14))));
    let more_bases = vec![bases[0], bases[1], bases[2], g, g];
    assert!(msm(&more_bases, &scalars[..3]).same_point(&fast));
}
