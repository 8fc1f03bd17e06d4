use succinct_work::puzzle::{Address, CoinbasePuzzle, CoinbaseSolution, EpochChallenge, ProverSolution, PuzzleConfig};
use succinct_work::records::{read_32_bytes, read_solution, read_u32, read_u64, write_solution};

fn solutions(count: u8) -> (CoinbasePuzzle, EpochChallenge, Vec<ProverSolution>) {
    let srs = CoinbasePuzzle::setup(PuzzleConfig { degree: 3 }, b"records").unwrap();
    let puzzle = CoinbasePuzzle::trim(&srs, PuzzleConfig { degree: 3 }).unwrap();
    let challenge = EpochChallenge::new(0xdead_beef, [0x11; 32], 3);
    let all = (0..count)
        .map(|i| {
            let mut bytes = [0x22u8; 32];
            bytes[5] = i;
            puzzle.prove(&challenge, Address::new(bytes), 1000 + u64::from(i), None).unwrap()
        })
        .collect();
    (puzzle, challenge, all)
}

#[test]
fn numbers_are_read_least_significant_byte_first() {
    let bytes = [1u8, 2, 3, 4, 5, 6, 7, 8, 9, 10];
    assert_eq!(read_u64(&bytes, 0), 0x0807_0605_0403_0201);
    assert_eq!(read_u64(&bytes, 2), 0x0a09_0807_0605_0403);
    assert_eq!(read_u32(&bytes, 0), 0x0403_0201);
    assert_eq!(read_u32(&bytes, 6), 0x0a09_0807);
    let long = (0u8..40).collect::<Vec<_>>();
    let mut expected = [0u8; 32];
    for (i, b) in expected.iter_mut().enumerate() {
        *b = 8 + i as u8;
    }
    assert_eq!(read_32_bytes(&long, 8), expected);
}

#[test]
fn a_configuration_survives_its_bytes() {
    for degree in [0, 1, 0x0102_0304, u32::MAX] {
        let config = PuzzleConfig { degree };
        let bytes = config.to_bytes();
        assert_eq!(bytes, u64::from(degree).to_le_bytes());
        assert_eq!(PuzzleConfig::from_bytes(&bytes), Some(config));
    }
    assert_eq!(PuzzleConfig::from_bytes(&[0; 7]), None);
    assert_eq!(PuzzleConfig::from_bytes(&[0; 9]), None);
    // a degree that does not fit
    assert_eq!(PuzzleConfig::from_bytes(&[0, 0, 0, 0, 1, 0, 0, 0]), None);
}

#[test]
fn a_challenge_survives_its_bytes() {
    let mut randomness = [0u8; 32];
    for (i, b) in randomness.iter_mut().enumerate() {
        *b = 100 + i as u8;
    }
    let challenge = EpochChallenge::new(0x0403_0201, randomness, 0x0807_0605);
    let bytes = challenge.to_bytes();
    assert_eq!(bytes.len(), 40);
    assert_eq!(bytes[..4], [1, 2, 3, 4]);
    assert_eq!(bytes[4..36], randomness);
    assert_eq!(bytes[36..], [5, 6, 7, 8]);
    assert_eq!(EpochChallenge::from_bytes(&bytes), Some(challenge));
    assert_eq!(EpochChallenge::from_bytes(&bytes[..39]), None);
    assert_eq!(EpochChallenge::from_bytes(&[]), None);
}

#[test]
fn a_solution_survives_its_bytes() {
    let (_, _, all) = solutions(1);
    let mut bytes = vec![0xee];
    write_solution(&mut bytes, &all[0]);
    assert_eq!(bytes.len(), 146);
    assert_eq!(bytes[1..33], all[0].address.bytes);
    assert_eq!(bytes[33..41], all[0].nonce.to_le_bytes());
    assert_eq!(bytes[138..146], all[0].target.to_le_bytes());
    let read = read_solution(&bytes, 1).unwrap();
    assert_eq!(read.address, all[0].address);
    assert_eq!(read.nonce, all[0].nonce);
    assert_eq!(read.target, all[0].target);
    assert!(read.commitment.same_coordinates(&all[0].commitment));
    bytes[50] ^= 1;
    assert!(read_solution(&bytes, 1).is_none());
}

#[test]
fn a_batch_survives_its_bytes() {
    let (puzzle, challenge, all) = solutions(3);
    let batch = CoinbaseSolution::new(all.clone()).unwrap();
    let bytes = batch.to_bytes();
    assert_eq!(bytes.len(), 8 + 3 * 145);
    assert_eq!(bytes[..8], 3u64.to_le_bytes());
    let read = CoinbaseSolution::from_bytes(&bytes).unwrap();
    assert_eq!(read.len(), 3);
    for i in 0..3 {
        assert_eq!(read.get(i).address, all[i].address);
        assert_eq!(read.get(i).nonce, all[i].nonce);
        assert_eq!(read.get(i).target, all[i].target);
        assert!(read.get(i).commitment.same_coordinates(&all[i].commitment));
    }
    assert_eq!(read.to_bytes(), bytes);
    assert!(puzzle.check_solutions(&read, &challenge, 0).is_ok());
}

#[test]
fn bytes_that_are_no_batch() {
    let (_, _, all) = solutions(2);
    let bytes = CoinbaseSolution::new(all).unwrap().to_bytes();
    assert!(CoinbaseSolution::from_bytes(&bytes).is_some());
    assert!(CoinbaseSolution::from_bytes(&[]).is_none());
    assert!(CoinbaseSolution::from_bytes(&bytes[..8]).is_none());
    assert!(CoinbaseSolution::from_bytes(&bytes[..bytes.len() - 1]).is_none());
    // no solution at all
    assert!(CoinbaseSolution::from_bytes(&0u64.to_le_bytes()).is_none());
    // fewer solutions than announced, and more
    let mut other = bytes.clone();
    other[0] = 3;
    assert!(CoinbaseSolution::from_bytes(&other).is_none());
    other[0] = 1;
    assert!(CoinbaseSolution::from_bytes(&other).is_none());
    // more than a batch may hold
    let mut other = 257u64.to_le_bytes().to_vec();
    other.resize(8 + 257 * 145, 0);
    assert!(CoinbaseSolution::from_bytes(&other).is_none());
    // a commitment off the curve
    let mut other = bytes.clone();
    other[8 + 145 + 41] ^= 1;
    assert!(CoinbaseSolution::from_bytes(&other).is_none());
    // an address twice
    let mut other = bytes.clone();
    other[8 + 5] = 1;
    assert!(CoinbaseSolution::from_bytes(&other).is_none());
    other[8 + 5] = 2;
    assert!(CoinbaseSolution::from_bytes(&other).is_some());
}
