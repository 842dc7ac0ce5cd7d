use stark_tools::fri::FRIProtocol;
use stark_tools::polynomial::PolynomialCoefficient;
use stark_tools::ProofError;

/// The commitment the prover opens: the root over the polynomial padded
/// out to 2^d coefficients, evaluated at the given rate.
fn commitment_of(coeffs: &[u64], d: usize, rate: u64) -> Vec<u8> {
    let mut padded = coeffs.to_vec();
    while padded.len() < (1usize << d) {
        padded.push(0);
    }
    let degree = (1u64 << d) - 1;
    let poly = PolynomialCoefficient::new(degree, padded);
    let evals = poly.fft(rate).unwrap();
    evals.commit().ptree.root()
}

#[test]
fn round_trip_small() {
    let fri = FRIProtocol::new(vec![1], 2);
    let poly = PolynomialCoefficient::new(1, vec![3, 1]);
    let root = commitment_of(&[3, 1], 1, 2);
    let proof = fri.prove(&poly).unwrap();
    assert_eq!(proof.len(), 248);
    assert!(fri.verify(proof, &root).is_ok());
}

#[test]
fn round_trip_deg7_rate8() {
    // degree 7, rate 8, three rounds of three queries
    let fri = FRIProtocol::new(vec![3, 3, 3], 8);
    let coeffs = vec![11u64, 22, 33, 44, 55, 66, 77, 88];
    let poly = PolynomialCoefficient::new(7, coeffs.clone());
    let root = commitment_of(&coeffs, 3, 8);
    let proof = fri.prove(&poly).unwrap();
    // the proof is exactly the schedule's absorb total
    assert_eq!(proof.len(), 4376);
    assert!(fri.verify(proof, &root).is_ok());
}

#[test]
fn round_trip_padded_degree() {
    // a polynomial of degree below 2^d - 1 is padded by the prover
    let fri = FRIProtocol::new(vec![2, 1], 4);
    let poly = PolynomialCoefficient::new(2, vec![5, 6, 7]);
    let root = commitment_of(&[5, 6, 7], 2, 4);
    let proof = fri.prove(&poly).unwrap();
    assert!(fri.verify(proof, &root).is_ok());
}

#[test]
fn prover_is_deterministic() {
    let fri = FRIProtocol::new(vec![2, 2], 4);
    let p1 = fri.prove(&PolynomialCoefficient::new(3, vec![9, 8, 7, 6])).unwrap();
    let p2 = fri.prove(&PolynomialCoefficient::new(3, vec![9, 8, 7, 6])).unwrap();
    assert_eq!(p1, p2);
    // and a different polynomial produces different bytes
    let p3 = fri.prove(&PolynomialCoefficient::new(3, vec![9, 8, 7, 5])).unwrap();
    assert_ne!(p1, p3);
}

#[test]
fn every_bit_flip_is_rejected() {
    let fri = FRIProtocol::new(vec![1], 2);
    let poly = PolynomialCoefficient::new(1, vec![3, 1]);
    let root = commitment_of(&[3, 1], 1, 2);
    let proof = fri.prove(&poly).unwrap();
    assert!(fri.verify(proof.clone(), &root).is_ok());
    for byte in 0..proof.len() {
        for bit in 0..8u8 {
            let mut bad = proof.clone();
            bad[byte] ^= 1u8 << bit;
            assert!(
                fri.verify(bad, &root).is_err(),
                "flip of bit {bit} in byte {byte} was accepted"
            );
        }
    }
}

#[test]
fn tampered_fold_commitment_rejected() {
    // incrementing the first byte of the first fold commitment, which
    // sits right after the 32-byte public root
    let fri = FRIProtocol::new(vec![3, 3, 3], 8);
    let coeffs = vec![11u64, 22, 33, 44, 55, 66, 77, 88];
    let poly = PolynomialCoefficient::new(7, coeffs.clone());
    let root = commitment_of(&coeffs, 3, 8);
    let mut proof = fri.prove(&poly).unwrap();
    proof[32] = proof[32].wrapping_add(1);
    assert_eq!(fri.verify(proof, &root), Err(ProofError::InvalidProof));
}

#[test]
fn tampered_fold_value_rejected() {
    // the single fold value of the one-round instance lives at bytes
    // 208..216: root 32, commitment 32, leaf values 8 + 64 + 8 + 64
    let fri = FRIProtocol::new(vec![1], 2);
    let poly = PolynomialCoefficient::new(1, vec![3, 1]);
    let root = commitment_of(&[3, 1], 1, 2);
    let mut proof = fri.prove(&poly).unwrap();
    proof[215] = proof[215].wrapping_add(1);
    assert_eq!(fri.verify(proof, &root), Err(ProofError::InvalidProof));
}

#[test]
fn rate_mismatch_is_a_serialization_error() {
    // prover at rate 8, verifier configured for rate 4: the schedules
    // disagree, so the buffer length is refused before any field check
    let prover = FRIProtocol::new(vec![3, 3, 3], 8);
    let coeffs = vec![11u64, 22, 33, 44, 55, 66, 77, 88];
    let poly = PolynomialCoefficient::new(7, coeffs.clone());
    let root = commitment_of(&coeffs, 3, 8);
    let proof = prover.prove(&poly).unwrap();
    let verifier = FRIProtocol::new(vec![3, 3, 3], 4);
    assert_eq!(verifier.verify(proof, &root), Err(ProofError::SerializationError));
}

#[test]
fn truncated_proof_is_a_serialization_error() {
    let fri = FRIProtocol::new(vec![1], 2);
    let poly = PolynomialCoefficient::new(1, vec![3, 1]);
    let root = commitment_of(&[3, 1], 1, 2);
    let mut proof = fri.prove(&poly).unwrap();
    proof.pop();
    assert_eq!(fri.verify(proof, &root), Err(ProofError::SerializationError));
}

#[test]
fn wrong_commitment_rejected() {
    let fri = FRIProtocol::new(vec![1], 2);
    let poly = PolynomialCoefficient::new(1, vec![3, 1]);
    let other = commitment_of(&[3, 2], 1, 2);
    let proof = fri.prove(&poly).unwrap();
    assert_eq!(fri.verify(proof, &other), Err(ProofError::InvalidProof));
}

#[test]
fn bad_configuration_is_refused() {
    // a rate that is not a power of two
    let fri = FRIProtocol::new(vec![1], 3);
    assert!(!fri.check_config());
    let poly = PolynomialCoefficient::new(1, vec![3, 1]);
    assert_eq!(fri.prove(&poly), Err(ProofError::ConfigError));
    assert_eq!(fri.verify(vec![0; 16], &vec![0; 32]), Err(ProofError::ConfigError));
    // no rounds at all
    let empty = FRIProtocol::new(vec![], 4);
    assert!(!empty.check_config());
    // a zero query count
    let zeroq = FRIProtocol::new(vec![0], 4);
    assert!(!zeroq.check_config());
    // a degree too large for the round count
    let fri2 = FRIProtocol::new(vec![1], 2);
    let big = PolynomialCoefficient::new(2, vec![1, 2, 3]);
    assert_eq!(fri2.prove(&big), Err(ProofError::ConfigError));
}

#[test]
fn noncanonical_value_is_a_serialization_error() {
    // the first opened leaf value of the one-round instance sits at
    // bytes 64..72; an eight-byte value at or above the field prime is
    // not a canonical encoding and must be refused as malformed
    let fri = FRIProtocol::new(vec![1], 2);
    let poly = PolynomialCoefficient::new(1, vec![3, 1]);
    let root = commitment_of(&[3, 1], 1, 2);
    let mut proof = fri.prove(&poly).unwrap();
    for b in 64..72 {
        proof[b] = 0xff;
    }
    assert_eq!(fri.verify(proof, &root), Err(ProofError::SerializationError));
}

#[test]
fn self_check_round_trip() {
    assert!(stark_tools::fri::main_test());
}
