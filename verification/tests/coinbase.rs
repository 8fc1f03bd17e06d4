use snarkvm_utilities::rand::{TestRng, Uniform};
use succinct_work::bits::{derange_helper, log2};
use succinct_work::error::PuzzleError;
use succinct_work::hash::{blake2b512, blake2s256, hash_to_polynomial};
use succinct_work::puzzle::{Address, CoinbasePuzzle, CoinbaseSolution, EpochChallenge, PuzzleConfig};

const ITERATIONS: u64 = 100;

fn random_address(rng: &mut TestRng) -> Address {
    let mut bytes = [0u8; 32];
    for b in bytes.iter_mut() {
        *b = u8::rand(rng);
    }
    Address::new(bytes)
}

fn seed(rng: &mut TestRng) -> Vec<u8> {
    (0..32).map(|_| u8::rand(rng)).collect()
}

#[test]
fn test_coinbase_puzzle() {
    let mut rng = TestRng::default();

    let max_degree = 1 << 15;
    let max_config = PuzzleConfig { degree: max_degree };
    let srs = CoinbasePuzzle::setup(max_config, &seed(&mut rng)).unwrap();

    for log_degree in 5..10 {
        let degree = (1 << log_degree) - 1;
        let config = PuzzleConfig { degree };
        let puzzle = CoinbasePuzzle::trim(&srs, config).unwrap();
        let epoch_challenge = EpochChallenge::new(u32::rand(&mut rng), Default::default(), degree);

        for batch_size in 1..10 {
            let solutions = (0..batch_size)
                .map(|_| {
                    let address = random_address(&mut rng);
                    let nonce = u64::rand(&mut rng);
                    puzzle.prove(&epoch_challenge, address, nonce, None).unwrap()
                })
                .collect::<Vec<_>>();
            let full_solution = CoinbaseSolution::new(solutions).unwrap();
            assert!(puzzle.check_solutions(&full_solution, &epoch_challenge, 0u64).is_ok());

            let bad_epoch_challenge = EpochChallenge::new(u32::rand(&mut rng), Default::default(), degree);
            assert!(puzzle.check_solutions(&full_solution, &bad_epoch_challenge, 0u64).is_err());
        }
    }
}

#[test]
fn test_prover_solution_minimum_target() {
    let mut rng = TestRng::default();

    let max_degree = 1 << 15;
    let max_config = PuzzleConfig { degree: max_degree };
    let srs = CoinbasePuzzle::setup(max_config, &seed(&mut rng)).unwrap();

    for log_degree in 5..10 {
        let degree = (1 << log_degree) - 1;
        let config = PuzzleConfig { degree };
        let puzzle = CoinbasePuzzle::trim(&srs, config).unwrap();
        let epoch_challenge = EpochChallenge::new(u32::rand(&mut rng), Default::default(), degree);

        for _ in 0..ITERATIONS {
            let address = random_address(&mut rng);
            let nonce = u64::rand(&mut rng);

            let solution = puzzle.prove(&epoch_challenge, address, nonce, None).unwrap();
            let proof_target = solution.to_target();

            // Assert that the operation will pass if the minimum target is low enough.
            assert!(puzzle.prove(&epoch_challenge, address, nonce, Some(proof_target.saturating_sub(1))).is_ok());

            // Assert that the operation will fail if the minimum target is too high.
            assert!(puzzle.prove(&epoch_challenge, address, nonce, Some(proof_target.saturating_add(1))).is_err());
        }
    }
}

#[test]
fn test_edge_case_for_degree() {
    let mut rng = TestRng::default();

    // Generate srs.
    let max_degree = 1 << 15;
    let max_config = PuzzleConfig { degree: max_degree };
    let srs = CoinbasePuzzle::setup(max_config, &seed(&mut rng)).unwrap();

    // Generate PK and VK.
    let degree = (1 << 13) - 1;
    let puzzle = CoinbasePuzzle::trim(&srs, PuzzleConfig { degree }).unwrap();

    // Generate proof inputs
    let address = random_address(&mut rng);
    let epoch_challenge = EpochChallenge::new(u32::rand(&mut rng), Default::default(), degree);

    // Generate a prover solution.
    let prover_solution = puzzle.prove(&epoch_challenge, address, u64::rand(&mut rng), None).unwrap();
    let coinbase_solution = CoinbaseSolution::new(vec![prover_solution]).unwrap();
    assert!(puzzle.check_solutions(&coinbase_solution, &epoch_challenge, 0u64).is_ok());
}

#[test]
fn fft_test() {
    let mut x_s = (1..512).collect::<Vec<i32>>();

    let log_len = log2(x_s.len());
    derange_helper(&mut x_s, log_len);

    println!("{x_s:?}");
    assert_eq!(log_len, 9);
    assert_eq!(x_s.len(), 511);
    // the entry at index 1 came from index 0b100000000, and the other way round
    assert_eq!(x_s[1], 257);
    assert_eq!(x_s[256], 2);
    assert_eq!(x_s[0], 1);
    assert_eq!(x_s[510], 256);
    assert_eq!(x_s[255], 511);
}

#[test]
fn hash_test() {
    let mut input = [0u8; 76];
    input[0] = 1u8;

    let degree = 512;

    let result = hash_to_polynomial(&input, degree);

    println!("{result:?}");
    assert_eq!(result.coefficients.len(), 513);
    assert_eq!(result, hash_to_polynomial(&input, degree));
}

#[test]
fn blake256_test() {
    let mut input = [0u8; 76];
    input[0] = 1u8;

    println!("{}", hex::encode(input));
    let hash = blake2s256(&input);

    println!("{}", hex::encode(&hash));
    assert_eq!(hash.len(), 32);
}

#[test]
fn blake512_test() {
    let mut input = [0u8; 76];
    input[0] = 1u8;

    println!("{}", hex::encode(input));
    let hash = blake2b512(&input);

    println!("{}", hex::encode(&hash));
    assert_eq!(hash.len(), 64);
}

#[test]
fn malformed_batches_are_refused() {
    assert!(matches!(CoinbaseSolution::new(vec![]), Err(PuzzleError::MalformedBatchError)));
}
