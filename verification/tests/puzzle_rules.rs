use snarkvm_utilities::rand::{TestRng, Uniform};
use succinct_work::curve::Affine;
use succinct_work::encoding::{read_point, write_point};
use succinct_work::error::PuzzleError;
use succinct_work::hash::{blake2b512, blake2s256, coefficient, hash_to_coefficients, hash_to_polynomial, Polynomial};
use succinct_work::msm::msm;
use succinct_work::puzzle::{
    commitment_target, prover_bytes, Address, CoinbasePuzzle, CoinbaseSolution, EpochChallenge, ProverSolution,
    PuzzleConfig, MAX_SOLUTIONS,
};
use succinct_work::scalar::Scalar;
use succinct_work::srs::{UniversalSrs, MAX_SUPPORTED_DEGREE};

fn small_puzzle(degree: u32) -> (UniversalSrs, CoinbasePuzzle) {
    let srs = CoinbasePuzzle::setup(PuzzleConfig { degree: 2 * degree + 1 }, b"a seed for tests").unwrap();
    let puzzle = CoinbasePuzzle::trim(&srs, PuzzleConfig { degree }).unwrap();
    (srs, puzzle)
}

fn address(tag: u8) -> Address {
    let mut bytes = [0u8; 32];
    bytes[0] = tag;
    bytes[31] = 0xa5;
    Address::new(bytes)
}

#[test]
fn digests_have_their_known_values() {
    let mut input = [0u8; 76];
    input[0] = 1u8;
    assert_eq!(hex::encode(blake2s256(&input)), "afc610fd1fec7fe236ede51fdb768a67c24a0c2a3a048929997722c9ffba95d3");
    assert_eq!(
        hex::encode(blake2b512(&input)),
        "96166edf1b79c566f754db4ab2552eb8535193980be393bb838ddf283a985b3d5e626bb54aae5077c6714b35409a19a252a5d4c5276aca3bd8aaae127a55a8f4"
    );
}

#[test]
fn coefficients_have_their_known_values() {
    let mut input = [0u8; 76];
    input[0] = 1u8;
    let p = hash_to_polynomial(&input, 512);
    assert_eq!(p.coefficients.len(), 513);
    assert_eq!(
        p.coefficients[0].limbs,
        [11292269008134799783, 15904864989274192800, 14075875452471373168, 305674738015137715]
    );
    assert_eq!(
        p.coefficients[1].limbs,
        [10440979841022738883, 16607354561867031498, 5464083722439770039, 861568277892438811]
    );
    assert_eq!(
        p.coefficients[512].limbs,
        [16230251862165020166, 7415443376019015178, 6239823961448492760, 974605874783419409]
    );
    assert_eq!(hash_to_coefficients(&input, 2), p.coefficients[..2].to_vec());
    assert_eq!(coefficient(&blake2s256(&input), 512), p.coefficients[512]);
    assert!(hash_to_coefficients(&input, 0).is_empty());
    assert_eq!(hash_to_polynomial(&input, 0).coefficients.len(), 1);
}

#[test]
fn hash_to_polynomial_is_deterministic() {
    let mut rng = TestRng::default();
    for _ in 0..20 {
        let seed = (0..u8::rand(&mut rng)).map(|_| u8::rand(&mut rng)).collect::<Vec<_>>();
        let degree = u32::from(u8::rand(&mut rng));
        let first = hash_to_polynomial(&seed, degree);
        let again = hash_to_polynomial(&seed.clone(), degree);
        assert_eq!(first, again);
        // a polynomial of a lower degree is the beginning of one of a higher
        let longer = hash_to_polynomial(&seed, degree + 1);
        assert_eq!(first.coefficients[..], longer.coefficients[..first.coefficients.len()]);
    }
}

#[test]
fn epochs_do_not_collide() {
    let mut rng = TestRng::default();
    let degree = 3;
    for _ in 0..1000 {
        let first = EpochChallenge::new(u32::rand(&mut rng), Default::default(), degree);
        let mut other = u32::rand(&mut rng);
        if other == first.epoch_number {
            other = other.wrapping_add(1);
        }
        let second = EpochChallenge::new(other, Default::default(), degree);
        let who = address(1);
        let nonce = u64::rand(&mut rng);
        let a = hash_to_polynomial(&prover_bytes(&first, &who, nonce), degree);
        let b = hash_to_polynomial(&prover_bytes(&second, &who, nonce), degree);
        assert_ne!(a, b);
    }
}

#[test]
fn the_prover_input_is_laid_out_in_order() {
    let challenge = EpochChallenge::new(0x0403_0201, [9u8; 32], 0x0d0c_0b0a);
    let input = prover_bytes(&challenge, &address(7), 0x1817_1615_1413_1211);
    assert_eq!(input.len(), 80);
    assert_eq!(input[0], 7);
    assert_eq!(input[31], 0xa5);
    assert_eq!(input[32..40], [0x11, 0x12, 0x13, 0x14, 0x15, 0x16, 0x17, 0x18]);
    assert_eq!(input[40..44], [1, 2, 3, 4]);
    assert_eq!(input[44..76], [9u8; 32]);
    assert_eq!(input[76..80], [0x0a, 0x0b, 0x0c, 0x0d]);
}

#[test]
fn setup_refuses_an_unsupported_degree() {
    assert!(matches!(
        CoinbasePuzzle::setup(PuzzleConfig { degree: MAX_SUPPORTED_DEGREE + 1 }, &[1]),
        Err(PuzzleError::SetupError)
    ));
    assert!(matches!(UniversalSrs::setup(u32::MAX, &[1]), Err(PuzzleError::SetupError)));
    let srs = UniversalSrs::setup(0, &[1]).unwrap();
    assert_eq!(srs.max_degree(), 0);
    assert!(srs.power_of_tau(0).same_coordinates(&Affine::generator()));
}

#[test]
fn setup_makes_the_powers_of_its_secret() {
    let seed = b"one seed";
    let srs = UniversalSrs::setup(4, seed).unwrap();
    assert_eq!(srs.max_degree(), 4);
    let tau = Scalar::from_bytes_le_mod_order(&blake2b512(seed));
    let mut power = Scalar::from_u64(1);
    for i in 0..=4 {
        assert!(Affine::generator().mul_bits(&power).to_affine().same_coordinates(&srs.power_of_tau(i)));
        power = power.mul_mod(&tau);
    }
    // the same seed gives the same string, another seed another
    let again = UniversalSrs::setup(4, seed).unwrap();
    assert!(again.power_of_tau(3).same_coordinates(&srs.power_of_tau(3)));
    let other = UniversalSrs::setup(4, b"another seed").unwrap();
    assert!(!other.power_of_tau(1).same_coordinates(&srs.power_of_tau(1)));
}

#[test]
fn trim_refuses_a_degree_beyond_the_string() {
    let srs = UniversalSrs::setup(7, &[3]).unwrap();
    assert!(matches!(CoinbasePuzzle::trim(&srs, PuzzleConfig { degree: 8 }), Err(PuzzleError::ConfigError)));
    let puzzle = CoinbasePuzzle::trim(&srs, PuzzleConfig { degree: 7 }).unwrap();
    assert_eq!(puzzle.degree(), 7);
    assert_eq!(CoinbasePuzzle::trim(&srs, PuzzleConfig { degree: 0 }).unwrap().degree(), 0);
}

#[test]
fn the_commitment_is_the_sum_over_the_key() {
    let (srs, puzzle) = small_puzzle(7);
    let challenge = EpochChallenge::new(5, [1u8; 32], 7);
    let commitment = puzzle.commit(&challenge, &address(2), 99);
    let polynomial = hash_to_polynomial(&prover_bytes(&challenge, &address(2), 99), 7);
    let key = srs.powers_up_to(7);
    assert!(msm(&key, &polynomial.coefficients).to_affine().same_coordinates(&commitment));
    let solution = puzzle.prove(&challenge, address(2), 99, None).unwrap();
    assert!(solution.commitment.same_coordinates(&commitment));
    assert_eq!(solution.nonce, 99);
    assert_eq!(solution.address, address(2));
    assert_eq!(solution.to_target(), commitment_target(&commitment));
}

#[test]
fn the_target_is_the_highest_number_over_the_hash() {
    let (_, puzzle) = small_puzzle(3);
    let challenge = EpochChallenge::new(5, [1u8; 32], 3);
    for nonce in 0..10 {
        let commitment = puzzle.commit(&challenge, &address(2), nonce);
        let mut bytes = Vec::new();
        write_point(&mut bytes, &commitment);
        assert_eq!(bytes.len(), 97);
        let digest = blake2s256(&bytes);
        let hash = u64::from_le_bytes(digest[..8].try_into().unwrap());
        let expected = if hash == 0 { u64::MAX } else { u64::MAX / hash };
        assert_eq!(commitment_target(&commitment), expected);
        assert!(expected >= 1);
    }
}

#[test]
fn a_target_is_proved_up_to_itself() {
    let (_, puzzle) = small_puzzle(15);
    let challenge = EpochChallenge::new(11, [2u8; 32], 15);
    for nonce in 0..10 {
        let target = puzzle.prove(&challenge, address(1), nonce, None).unwrap().to_target();
        assert!(puzzle.prove(&challenge, address(1), nonce, Some(0)).is_ok());
        assert!(puzzle.prove(&challenge, address(1), nonce, Some(target)).is_ok());
        assert!(puzzle.prove(&challenge, address(1), nonce, Some(target - 1)).is_ok());
        if target < u64::MAX {
            assert!(matches!(
                puzzle.prove(&challenge, address(1), nonce, Some(target + 1)),
                Err(PuzzleError::InsufficientWorkError)
            ));
        }
    }
}

#[test]
fn batches_must_be_well_formed() {
    let (_, puzzle) = small_puzzle(3);
    let challenge = EpochChallenge::new(1, [0u8; 32], 3);
    assert!(matches!(CoinbaseSolution::new(vec![]), Err(PuzzleError::MalformedBatchError)));

    let one = puzzle.prove(&challenge, address(1), 0, None).unwrap();
    let same_address = puzzle.prove(&challenge, address(1), 1, None).unwrap();
    let two = puzzle.prove(&challenge, address(2), 0, None).unwrap();
    assert!(matches!(CoinbaseSolution::new(vec![one, same_address]), Err(PuzzleError::MalformedBatchError)));
    assert!(matches!(CoinbaseSolution::new(vec![one, two, same_address]), Err(PuzzleError::MalformedBatchError)));
    let batch = CoinbaseSolution::new(vec![one, two]).unwrap();
    assert_eq!(batch.len(), 2);
    assert_eq!(batch.get(1).address, address(2));

    let many = |count: usize| {
        (0..count)
            .map(|i| {
                let mut bytes = [0u8; 32];
                bytes[0] = (i % 256) as u8;
                bytes[1] = (i / 256) as u8;
                ProverSolution { address: Address::new(bytes), nonce: 0, commitment: one.commitment, target: one.target }
            })
            .collect::<Vec<_>>()
    };
    assert!(CoinbaseSolution::new(many(MAX_SOLUTIONS)).is_ok());
    assert!(matches!(CoinbaseSolution::new(many(MAX_SOLUTIONS + 1)), Err(PuzzleError::MalformedBatchError)));
}

#[test]
fn one_bad_solution_spoils_the_batch() {
    let (_, puzzle) = small_puzzle(7);
    let challenge = EpochChallenge::new(1, [0u8; 32], 7);
    let one = puzzle.prove(&challenge, address(1), 10, None).unwrap();
    let two = puzzle.prove(&challenge, address(2), 20, None).unwrap();
    let three = puzzle.prove(&challenge, address(3), 30, None).unwrap();
    let good = CoinbaseSolution::new(vec![one, two, three]).unwrap();
    assert!(puzzle.check_solutions(&good, &challenge, 0).is_ok());
    assert!(puzzle.check_solutions(&good, &challenge, u64::MAX).is_ok());

    // another nonce
    let mut bad = two;
    bad.nonce = 21;
    let batch = CoinbaseSolution::new(vec![one, bad, three]).unwrap();
    assert!(matches!(puzzle.check_solutions(&batch, &challenge, 0), Err(PuzzleError::VerificationError)));
    // another target
    let mut bad = three;
    bad.target = bad.target.wrapping_add(1);
    let batch = CoinbaseSolution::new(vec![one, two, bad]).unwrap();
    assert!(matches!(puzzle.check_solutions(&batch, &challenge, 0), Err(PuzzleError::VerificationError)));
    // another's commitment
    let mut bad = one;
    bad.commitment = two.commitment;
    bad.target = two.target;
    let batch = CoinbaseSolution::new(vec![bad, two, three]).unwrap();
    assert!(matches!(puzzle.check_solutions(&batch, &challenge, 0), Err(PuzzleError::VerificationError)));
    // another challenge, in each of its parts
    for other in [
        EpochChallenge::new(2, [0u8; 32], 7),
        EpochChallenge::new(1, [1u8; 32], 7),
        EpochChallenge::new(1, [0u8; 32], 8),
    ] {
        assert!(matches!(puzzle.check_solutions(&good, &other, 0), Err(PuzzleError::VerificationError)));
    }
    // another puzzle
    let (_, wider) = small_puzzle(8);
    assert!(wider.check_solutions(&good, &challenge, 0).is_err());
}

#[test]
fn a_reference_string_survives_its_bytes() {
    let srs = UniversalSrs::setup(9, b"round trip").unwrap();
    let bytes = srs.to_bytes();
    assert_eq!(bytes.len(), 8 + 97 * 10);
    assert_eq!(bytes[..8], 9u64.to_le_bytes());
    let read = UniversalSrs::from_bytes(&bytes).unwrap();
    assert_eq!(read.max_degree(), 9);
    assert_eq!(read.to_bytes(), bytes);

    let config = PuzzleConfig { degree: 5 };
    let first = CoinbasePuzzle::trim(&srs, config).unwrap();
    let second = CoinbasePuzzle::trim(&read, config).unwrap();
    let challenge = EpochChallenge::new(3, [4u8; 32], 5);
    let solution = first.prove(&challenge, address(9), 77, None).unwrap();
    let again = second.prove(&challenge, address(9), 77, None).unwrap();
    assert!(solution.commitment.same_coordinates(&again.commitment));
    assert_eq!(solution.target, again.target);
    let batch = CoinbaseSolution::new(vec![solution]).unwrap();
    assert!(second.check_solutions(&batch, &challenge, 0).is_ok());
    assert!(matches!(CoinbasePuzzle::trim(&read, PuzzleConfig { degree: 10 }), Err(PuzzleError::ConfigError)));
}

#[test]
fn bytes_that_are_no_reference_string() {
    let srs = UniversalSrs::setup(2, b"round trip").unwrap();
    let bytes = srs.to_bytes();
    assert!(UniversalSrs::from_bytes(&[]).is_none());
    assert!(UniversalSrs::from_bytes(&bytes[..7]).is_none());
    assert!(UniversalSrs::from_bytes(&bytes[..bytes.len() - 1]).is_none());
    let mut longer = bytes.clone();
    longer.push(0);
    assert!(UniversalSrs::from_bytes(&longer).is_none());
    // a degree that the elements do not match
    let mut other = bytes.clone();
    other[0] = 3;
    assert!(UniversalSrs::from_bytes(&other).is_none());
    // a degree beyond the supported one
    let mut other = bytes.clone();
    other[7] = 1;
    assert!(UniversalSrs::from_bytes(&other).is_none());
    // a flag that is neither 0 nor 1
    let mut other = bytes.clone();
    other[8 + 96] = 2;
    assert!(UniversalSrs::from_bytes(&other).is_none());
    // a point off the curve
    let mut other = bytes.clone();
    other[8 + 97 + 50] ^= 1;
    assert!(UniversalSrs::from_bytes(&other).is_none());
    assert!(read_point(&other, 8).is_some());
    assert!(read_point(&other, 8 + 97).is_none());
}

#[test]
fn coefficients_in_evaluation_order() {
    let p = Polynomial { coefficients: (1..=5).map(Scalar::from_u64).collect() };
    let out = p.to_evaluation_order();
    let numbers = out.iter().map(|s| s.limbs[0]).collect::<Vec<_>>();
    assert_eq!(numbers, vec![1, 5, 3, 0, 2, 0, 4, 0]);
    let p = Polynomial { coefficients: (1..=4).map(Scalar::from_u64).collect() };
    let numbers = p.to_evaluation_order().iter().map(|s| s.limbs[0]).collect::<Vec<_>>();
    assert_eq!(numbers, vec![1, 3, 2, 4]);
    let p = Polynomial { coefficients: vec![Scalar::from_u64(8)] };
    assert_eq!(p.to_evaluation_order(), vec![Scalar::from_u64(8)]);
    let p = Polynomial { coefficients: vec![] };
    assert_eq!(p.to_evaluation_order(), vec![Scalar::from_u64(0)]);
}

#[test]
fn errors_say_what_went_wrong() {
    let all = [
        PuzzleError::SetupError,
        PuzzleError::ConfigError,
        PuzzleError::InsufficientWorkError,
        PuzzleError::MalformedBatchError,
        PuzzleError::VerificationError,
    ];
    for (i, e) in all.iter().enumerate() {
        assert!(!e.message().is_empty());
        for other in &all[i + 1..] {
            assert_ne!(e, other);
            assert_ne!(e.message(), other.message());
        }
    }
}
