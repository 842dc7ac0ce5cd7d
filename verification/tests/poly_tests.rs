use stark_tools::fields::{felt_mul, root_of_unity, FIELD_MODULUS};
use stark_tools::polynomial::{PolynomialCoefficient, PolynomialPoints};
use stark_tools::ProofError;

#[test]
fn fft_constant_polynomial() {
    // a constant polynomial evaluates to its constant on every point
    let p = PolynomialCoefficient::new(0, vec![7]);
    let pp = p.fft(4).unwrap();
    assert_eq!(pp.degree, 0);
    assert_eq!(pp.evals, vec![7, 7, 7, 7]);
}

#[test]
fn fft_cubic_exact() {
    // degree 3, rate 2: the eight values of 1 + 2x + 3x^2 + 4x^3 on the
    // domain of the eighth root of unity
    let p = PolynomialCoefficient::new(3, vec![1, 2, 3, 4]);
    let pp = p.fft(2).unwrap();
    assert_eq!(pp.degree, 3);
    assert_eq!(
        pp.evals,
        vec![
            10,
            840026850067457,
            18446181119461163007,
            18445897445394088450,
            18446744069414584319,
            848823010196481,
            562949953421310,
            18445901843574816258,
        ]
    );
}

#[test]
fn fft_rejects_bad_domain() {
    let p = PolynomialCoefficient::new(0, vec![1]);
    assert_eq!(p.fft(3).err(), Some(ProofError::ConfigError));
    let p2 = PolynomialCoefficient::new(2, vec![1, 2, 3]);
    assert_eq!(p2.fft(2).err(), Some(ProofError::ConfigError));
}

#[test]
fn fold_matches_even_odd_mix() {
    // fold(FFT(P), alpha) equals Pe + alpha * Po evaluated on the squared
    // domain, computed here through two independent transforms
    let p = PolynomialCoefficient::new(3, vec![1, 2, 3, 4]);
    let pp = p.fft(2).unwrap();
    let alpha = 5u64;
    let folded = pp.fold(alpha).unwrap();
    assert_eq!(folded.degree, 1);
    assert_eq!(
        folded.evals,
        vec![34, 6473924464345099, 18446744069414584309, 18440270144950239244]
    );
    let pe = PolynomialCoefficient::new(1, vec![1, 3]).fft(2).unwrap();
    let po = PolynomialCoefficient::new(1, vec![2, 4]).fft(2).unwrap();
    for i in 0..4 {
        let mixed = (pe.evals[i] as u128 + alpha as u128 * po.evals[i] as u128)
            % FIELD_MODULUS as u128;
        assert_eq!(folded.evals[i] as u128, mixed);
    }
}

#[test]
fn fold_rejects_domain_challenge() {
    let p = PolynomialCoefficient::new(3, vec![1, 2, 3, 4]);
    let pp = p.fft(2).unwrap();
    let w = root_of_unity(8).unwrap();
    // the challenge must not be a domain point
    assert_eq!(pp.fold(w).err(), Some(ProofError::ConfigError));
    assert_eq!(pp.fold(1).err(), Some(ProofError::ConfigError));
    assert_eq!(pp.fold(felt_mul(w, w)).err(), Some(ProofError::ConfigError));
}

#[test]
fn fold_of_constant_stays_constant() {
    let p = PolynomialCoefficient::new(1, vec![9, 0]);
    let pp = p.fft(2).unwrap();
    assert_eq!(pp.evals, vec![9, 9, 9, 9]);
    let folded = pp.fold(123456).unwrap();
    assert_eq!(folded.evals, vec![9, 9]);
}

#[test]
fn zero_polynomial_shape() {
    let z = PolynomialCoefficient::zero(3);
    assert_eq!(z.degree, 3);
    assert_eq!(z.coefficients, vec![0, 0, 0, 0]);
    let pp = z.fft(2).unwrap();
    assert_eq!(pp.evals, vec![0; 8]);
    let direct = PolynomialPoints { degree: 0, evals: vec![4, 4] };
    assert_eq!(direct.evals.len(), 2);
}

#[test]
fn ifft_round_trip() {
    // the inverse transform recovers the coefficients of the transform
    let p = PolynomialCoefficient::new(3, vec![1, 2, 3, 4]);
    let pp = p.fft(2).unwrap();
    let back = pp.ifft();
    assert_eq!(back.degree, 3);
    assert_eq!(back.coefficients, vec![1, 2, 3, 4, 0, 0, 0, 0]);

    let q = PolynomialCoefficient::new(0, vec![7]);
    let qq = q.fft(4).unwrap();
    let qback = qq.ifft();
    assert_eq!(qback.degree, 0);
    assert_eq!(qback.coefficients, vec![7, 0, 0, 0]);

    let r = PolynomialCoefficient::new(7, vec![9, 0, 5, 1, 8, 2, 6, 3]);
    let rr = r.fft(1).unwrap();
    let rback = rr.ifft();
    assert_eq!(rback.coefficients, vec![9, 0, 5, 1, 8, 2, 6, 3]);
}
