use pcron::decimal::NumLit;
use pcron::dist::Distribution;
use pcron::dist::DistributionError;
use pcron::dist::build_dyn_distf32;

fn num(ints: &[u8]) -> NumLit {
    NumLit::new(false, ints.to_vec(), Vec::new(), false, Vec::new()).unwrap()
}

fn neg_num(ints: &[u8]) -> NumLit {
    NumLit::new(true, ints.to_vec(), Vec::new(), false, Vec::new()).unwrap()
}

fn num_e(ints: &[u8], exp_neg: bool, exps: &[u8]) -> NumLit {
    NumLit::new(false, ints.to_vec(), Vec::new(), exp_neg, exps.to_vec()).unwrap()
}

fn args(v: Vec<NumLit>) -> Vec<NumLit> {
    v
}

#[test]
fn every_family_builds_with_its_arity() {
    let cases: Vec<(&[u8], Vec<NumLit>, Distribution)> = vec![
        (b"beta", args(vec![num(&[2]), num(&[5])]), Distribution::Beta),
        (b"cauchy", args(vec![num(&[0]), num(&[1])]), Distribution::Cauchy),
        (b"chi_squared", args(vec![num(&[3])]), Distribution::ChiSquared),
        (b"exp", args(vec![num(&[1])]), Distribution::Exp),
        (b"exp1", args(vec![]), Distribution::Exp1),
        (b"fisher_f", args(vec![num(&[2]), num(&[3])]), Distribution::FisherF),
        (b"frechet", args(vec![num(&[0]), num(&[1]), num(&[1])]), Distribution::Frechet),
        (b"gamma", args(vec![num(&[2]), num(&[1])]), Distribution::Gamma),
        (b"gumbel", args(vec![num(&[0]), num(&[2])]), Distribution::Gumbel),
        (b"inverse_gaussian", args(vec![num(&[1]), num(&[1])]), Distribution::InverseGaussian),
        (b"log_normal", args(vec![num(&[0]), num(&[1])]), Distribution::LogNormal),
        (b"normal", args(vec![num(&[0]), num(&[1])]), Distribution::Normal),
        (b"normal_inverse_gaussian", args(vec![num(&[2]), num(&[1])]),
            Distribution::NormalInverseGaussian),
        (b"pareto", args(vec![num(&[1]), num(&[2])]), Distribution::Pareto),
        (b"pert", args(vec![num(&[0]), num(&[1, 0]), num(&[4]), num(&[5])]), Distribution::Pert),
        (b"poisson", args(vec![num(&[3])]), Distribution::Poisson),
        (b"skew_normal", args(vec![num(&[0]), num(&[1]), num(&[5])]), Distribution::SkewNormal),
        (b"standard_normal", args(vec![]), Distribution::StandardNormal),
        (b"standard_uniform", args(vec![]), Distribution::StandardUniform),
        (b"student_t", args(vec![num(&[5])]), Distribution::StudentT),
        (b"triangular", args(vec![num(&[0]), num(&[1, 0]), num(&[5])]), Distribution::Triangular),
        (b"uniform", args(vec![num(&[5])]), Distribution::Uniform),
        (b"weibull", args(vec![num(&[1]), num(&[2])]), Distribution::Weibull),
    ];
    for (name, a, fam) in cases {
        let s = build_dyn_distf32(name, &a)
            .unwrap_or_else(|e| panic!("{:?} failed: {:?}", std::str::from_utf8(name), e));
        assert_eq!(s.family(), fam);
        assert_eq!(s.arg_count(), a.len());
    }
}

#[test]
fn uniform_takes_one_or_two_arguments() {
    assert!(build_dyn_distf32(b"uniform", &[num(&[5])]).is_ok());
    assert!(build_dyn_distf32(b"uniform", &[num(&[1]), num(&[2])]).is_ok());
    assert_eq!(
        build_dyn_distf32(b"uniform", &[]).unwrap_err(),
        DistributionError::WrongArgCount
    );
    assert_eq!(
        build_dyn_distf32(b"uniform", &[num(&[1]), num(&[2]), num(&[3])]).unwrap_err(),
        DistributionError::WrongArgCount
    );
}

#[test]
fn wrong_arity_fails_for_every_family() {
    let arities: Vec<(&[u8], usize)> = vec![
        (b"beta", 2),
        (b"cauchy", 2),
        (b"chi_squared", 1),
        (b"exp", 1),
        (b"exp1", 0),
        (b"fisher_f", 2),
        (b"frechet", 3),
        (b"gamma", 2),
        (b"gumbel", 2),
        (b"inverse_gaussian", 2),
        (b"log_normal", 2),
        (b"normal", 2),
        (b"normal_inverse_gaussian", 2),
        (b"pareto", 2),
        (b"pert", 4),
        (b"poisson", 1),
        (b"skew_normal", 3),
        (b"standard_normal", 0),
        (b"standard_uniform", 0),
        (b"student_t", 1),
        (b"triangular", 3),
        (b"weibull", 2),
    ];
    for (name, k) in arities {
        // one argument more than the arity always mismatches
        let mut a: Vec<NumLit> = Vec::new();
        for _ in 0..(k + 1) {
            a.push(num(&[1]));
        }
        assert_eq!(
            build_dyn_distf32(name, &a).unwrap_err(),
            DistributionError::WrongArgCount,
            "family {:?}",
            std::str::from_utf8(name)
        );
    }
}

#[test]
fn beta_with_one_argument_fails() {
    assert_eq!(
        build_dyn_distf32(b"beta", &[num(&[1])]).unwrap_err(),
        DistributionError::WrongArgCount
    );
}

#[test]
fn unknown_name_is_reported_with_the_name() {
    match build_dyn_distf32(b"frobnicate", &[num(&[1]), num(&[2])]).unwrap_err() {
        DistributionError::UnknownName(n) => assert_eq!(n.as_slice(), b"frobnicate"),
        other => panic!("expected UnknownName, got {:?}", other),
    }
}

#[test]
fn name_matching_is_case_sensitive() {
    assert!(matches!(
        build_dyn_distf32(b"Beta", &[num(&[1]), num(&[1])]).unwrap_err(),
        DistributionError::UnknownName(_)
    ));
}

#[test]
fn aliases_build_the_same_family() {
    let groups: Vec<(Vec<&[u8]>, Vec<NumLit>)> = vec![
        (vec![b"chi_squared", b"chisquared", b"chi2"], vec![num(&[3])]),
        (vec![b"exp", b"exponential"], vec![num(&[1])]),
        (vec![b"fisher_f", b"fisherf", b"f"], vec![num(&[2]), num(&[3])]),
        (vec![b"inverse_gaussian", b"inversegaussian", b"wald"], vec![num(&[1]), num(&[1])]),
        (vec![b"log_normal", b"lognormal"], vec![num(&[0]), num(&[1])]),
        (
            vec![b"normal_inverse_gaussian", b"normalinversegaussian", b"nig"],
            vec![num(&[2]), num(&[1])],
        ),
        (vec![b"skew_normal", b"skewnormal"], vec![num(&[0]), num(&[1]), num(&[1])]),
        (vec![b"standard_normal", b"std_normal"], vec![]),
        (vec![b"standard_uniform", b"std_uniform"], vec![]),
        (vec![b"student_t", b"studentt", b"t"], vec![num(&[5])]),
    ];
    for (names, a) in groups {
        let fam = build_dyn_distf32(names[0], &a).unwrap().family();
        for n in &names[1..] {
            assert_eq!(build_dyn_distf32(n, &a).unwrap().family(), fam);
        }
    }
}

#[test]
fn zero_or_negative_shape_parameters_fail() {
    assert_eq!(
        build_dyn_distf32(b"beta", &[num(&[0]), num(&[1])]).unwrap_err(),
        DistributionError::BadParam
    );
    assert_eq!(
        build_dyn_distf32(b"exp", &[num(&[0])]).unwrap_err(),
        DistributionError::BadParam
    );
    assert_eq!(
        build_dyn_distf32(b"poisson", &[neg_num(&[2])]).unwrap_err(),
        DistributionError::BadParam
    );
    assert_eq!(
        build_dyn_distf32(b"weibull", &[neg_num(&[1]), num(&[1])]).unwrap_err(),
        DistributionError::BadParam
    );
    assert_eq!(
        build_dyn_distf32(b"cauchy", &[num(&[0]), num(&[0])]).unwrap_err(),
        DistributionError::BadParam
    );
}

#[test]
fn ordering_constraints_are_checked() {
    // uniform needs low <= high
    assert!(build_dyn_distf32(b"uniform", &[num(&[1]), num(&[1])]).is_ok());
    assert_eq!(
        build_dyn_distf32(b"uniform", &[num(&[2]), num(&[1])]).unwrap_err(),
        DistributionError::BadParam
    );
    // triangular needs min <= mode <= max; a degenerate point is fine
    assert!(build_dyn_distf32(b"triangular", &[num(&[5]), num(&[5]), num(&[5])]).is_ok());
    assert_eq!(
        build_dyn_distf32(b"triangular", &[num(&[5]), num(&[1, 0]), num(&[1, 1])]).unwrap_err(),
        DistributionError::BadParam
    );
    // pert needs a strict range
    assert_eq!(
        build_dyn_distf32(b"pert", &[num(&[5]), num(&[5]), num(&[4]), num(&[5])]).unwrap_err(),
        DistributionError::BadParam
    );
    // normal_inverse_gaussian needs |beta| < alpha
    assert_eq!(
        build_dyn_distf32(b"nig", &[num(&[1]), num(&[2])]).unwrap_err(),
        DistributionError::BadParam
    );
    assert_eq!(
        build_dyn_distf32(b"nig", &[num(&[1]), neg_num(&[2])]).unwrap_err(),
        DistributionError::BadParam
    );
    assert!(build_dyn_distf32(b"nig", &[num(&[2]), neg_num(&[1])]).is_ok());
}

#[test]
fn magnitudes_beyond_float32_fail() {
    // 1e999 overflows, 1e-60 vanishes; both are rejected at build time
    assert_eq!(
        build_dyn_distf32(b"exp", &[num_e(&[1], false, &[9, 9, 9])]).unwrap_err(),
        DistributionError::BadParam
    );
    assert_eq!(
        build_dyn_distf32(b"exp", &[num_e(&[1], true, &[6, 0])]).unwrap_err(),
        DistributionError::BadParam
    );
    // the boundaries themselves
    assert!(build_dyn_distf32(b"exp", &[num_e(&[1], true, &[4, 4])]).is_ok());
    assert_eq!(
        build_dyn_distf32(b"exp", &[num_e(&[1], false, &[3, 8])]).unwrap_err(),
        DistributionError::BadParam
    );
    assert!(build_dyn_distf32(b"exp", &[num_e(&[9], false, &[3, 7])]).is_ok());
    // an absurdly long exponent is still out of range, not a crash
    assert_eq!(
        build_dyn_distf32(
            b"exp",
            &[num_e(&[1], false, &[1, 0, 0, 0, 0, 0, 0, 0, 0, 0, 0, 0, 0, 0, 0, 0, 0, 0, 0, 0, 0])]
        )
        .unwrap_err(),
        DistributionError::BadParam
    );
}

#[test]
fn poisson_rate_is_capped() {
    assert!(build_dyn_distf32(b"poisson", &[num_e(&[1], false, &[1, 8])]).is_ok());
    assert_eq!(
        build_dyn_distf32(b"poisson", &[num_e(&[2], false, &[1, 9])]).unwrap_err(),
        DistributionError::BadParam
    );
}

#[test]
fn fractional_comparisons_are_exact() {
    // 0.3 vs 0.30 are equal; 0.3 vs 0.299999999999999999 are not
    assert!(build_dyn_distf32(
        b"uniform",
        &[
            NumLit::new(false, vec![0], vec![3], false, vec![]).unwrap(),
            NumLit::new(false, vec![0], vec![3, 0], false, vec![]).unwrap(),
        ]
    )
    .is_ok());
    assert_eq!(
        build_dyn_distf32(
            b"uniform",
            &[
                NumLit::new(false, vec![0], vec![3], false, vec![]).unwrap(),
                NumLit::new(false, vec![0], vec![2, 9, 9, 9, 9, 9, 9, 9, 9, 9, 9, 9, 9, 9, 9, 9, 9, 9],
                    false, vec![]).unwrap(),
            ]
        )
        .unwrap_err(),
        DistributionError::BadParam
    );
}
