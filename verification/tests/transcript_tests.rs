use stark_tools::transcript::DomainSeparator;
use stark_tools::ProofError;

#[test]
fn prover_follows_schedule() {
    let ds = DomainSeparator::new_domain_separator(vec![1, 2, 3])
        .add_bytes(4)
        .challenge_bytes(8)
        .ratchet();
    let mut pt = ds.to_prover_state();
    assert!(pt.add_bytes(&vec![9, 9, 9, 9]).is_ok());
    let c = pt.challenge_bytes(8).unwrap();
    assert_eq!(c.len(), 8);
    assert!(pt.ratchet().is_ok());
    let out = pt.finish().unwrap();
    assert_eq!(out, vec![9, 9, 9, 9]);
}

#[test]
fn schedule_disagreement_aborts() {
    let ds = DomainSeparator::new_domain_separator(vec![1]).add_bytes(4);
    let mut pt = ds.to_prover_state();
    // a wrong width is refused and the transcript is left unchanged
    assert_eq!(pt.add_bytes(&vec![1, 2, 3]), Err(ProofError::SerializationError));
    assert_eq!(pt.challenge_bytes(8), Err(ProofError::SerializationError));
    assert_eq!(pt.ratchet(), Err(ProofError::SerializationError));
    assert!(pt.add_bytes(&vec![1, 2, 3, 4]).is_ok());
    // and finishing early is refused too
    let ds2 = DomainSeparator::new_domain_separator(vec![1]).add_bytes(4);
    let pt2 = ds2.to_prover_state();
    assert_eq!(pt2.finish(), Err(ProofError::SerializationError));
}

#[test]
fn challenges_are_reproducible() {
    let mk = || {
        DomainSeparator::new_domain_separator(vec![7, 7]).add_bytes(2).challenge_bytes(8)
    };
    let mut a = mk().to_prover_state();
    let mut b = mk().to_prover_state();
    a.add_bytes(&vec![1, 2]).unwrap();
    b.add_bytes(&vec![1, 2]).unwrap();
    assert_eq!(a.challenge_bytes(8).unwrap(), b.challenge_bytes(8).unwrap());
    // a different absorbed message changes the challenge
    let mut c = mk().to_prover_state();
    c.add_bytes(&vec![1, 3]).unwrap();
    let mut d = mk().to_prover_state();
    d.add_bytes(&vec![1, 2]).unwrap();
    assert_ne!(c.challenge_bytes(8).unwrap(), d.challenge_bytes(8).unwrap());
}

#[test]
fn verifier_mirrors_prover() {
    let mk = || {
        DomainSeparator::new_domain_separator(vec![5])
            .add_bytes(3)
            .challenge_bytes(4)
            .ratchet()
    };
    let mut pt = mk().to_prover_state();
    pt.add_bytes(&vec![8, 8, 8]).unwrap();
    let pc = pt.challenge_bytes(4).unwrap();
    pt.ratchet().unwrap();
    let proof = pt.finish().unwrap();
    let mut vt = mk().to_verifier_state(proof).unwrap();
    let read = vt.next_bytes(3).unwrap();
    assert_eq!(read, vec![8, 8, 8]);
    let vc = vt.challenge_bytes(4).unwrap();
    assert_eq!(pc, vc);
    assert!(vt.ratchet().is_ok());
}

#[test]
fn verifier_length_check() {
    let ds = DomainSeparator::new_domain_separator(vec![5]).add_bytes(3);
    assert!(matches!(
        ds.to_verifier_state(vec![1, 2]),
        Err(ProofError::SerializationError)
    ));
    let ds2 = DomainSeparator::new_domain_separator(vec![5]).add_bytes(3);
    assert!(ds2.to_verifier_state(vec![1, 2, 3]).is_ok());
}

#[test]
fn different_labels_differ() {
    let mut a = DomainSeparator::new_domain_separator(vec![1]).challenge_bytes(8).to_prover_state();
    let mut b = DomainSeparator::new_domain_separator(vec![2]).challenge_bytes(8).to_prover_state();
    assert_ne!(a.challenge_bytes(8).unwrap(), b.challenge_bytes(8).unwrap());
}
