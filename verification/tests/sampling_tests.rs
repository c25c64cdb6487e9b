use pcron::decimal::NumLit;
use pcron::dist::Distribution;
use pcron::dist::Sampler;
use pcron::tab::read;
use rand_distr::Distribution as _;

/// The float a validated literal denotes, by way of its decimal text.
fn lit_to_f32(l: &NumLit) -> f32 {
    let mut s = String::new();
    if l.is_neg() {
        s.push('-');
    }
    if l.int_part().is_empty() {
        s.push('0');
    } else {
        for d in l.int_part() {
            s.push((b'0' + d) as char);
        }
    }
    if !l.frac_part().is_empty() {
        s.push('.');
        for d in l.frac_part() {
            s.push((b'0' + d) as char);
        }
    }
    if !l.exp_part().is_empty() {
        s.push('e');
        if l.is_exp_neg() {
            s.push('-');
        }
        for d in l.exp_part() {
            s.push((b'0' + d) as char);
        }
    }
    s.parse::<f32>().unwrap()
}

fn arg_f32(s: &Sampler, i: usize) -> f32 {
    lit_to_f32(s.arg(i))
}

/// One draw from a validated sampler, the way the scheduler's runtime makes
/// it: each family maps onto its generator with the validated parameters.
fn draw(s: &Sampler) -> f32 {
    let r = &mut rand::rng();
    match s.family() {
        Distribution::Beta => rand_distr::Beta::new(arg_f32(s, 0), arg_f32(s, 1))
            .unwrap()
            .sample(r),
        Distribution::Cauchy => rand_distr::Cauchy::new(arg_f32(s, 0), arg_f32(s, 1))
            .unwrap()
            .sample(r),
        Distribution::ChiSquared => rand_distr::ChiSquared::new(arg_f32(s, 0)).unwrap().sample(r),
        Distribution::Exp => rand_distr::Exp::new(arg_f32(s, 0)).unwrap().sample(r),
        Distribution::Exp1 => rand_distr::Exp1.sample(r),
        Distribution::FisherF => rand_distr::FisherF::new(arg_f32(s, 0), arg_f32(s, 1))
            .unwrap()
            .sample(r),
        Distribution::Frechet => {
            rand_distr::Frechet::new(arg_f32(s, 0), arg_f32(s, 1), arg_f32(s, 2))
                .unwrap()
                .sample(r)
        },
        Distribution::Gamma => rand_distr::Gamma::new(arg_f32(s, 0), arg_f32(s, 1))
            .unwrap()
            .sample(r),
        Distribution::Gumbel => rand_distr::Gumbel::new(arg_f32(s, 0), arg_f32(s, 1))
            .unwrap()
            .sample(r),
        Distribution::InverseGaussian => {
            rand_distr::InverseGaussian::new(arg_f32(s, 0), arg_f32(s, 1))
                .unwrap()
                .sample(r)
        },
        Distribution::LogNormal => rand_distr::LogNormal::new(arg_f32(s, 0), arg_f32(s, 1))
            .unwrap()
            .sample(r),
        Distribution::Normal => rand_distr::Normal::new(arg_f32(s, 0), arg_f32(s, 1))
            .unwrap()
            .sample(r),
        Distribution::NormalInverseGaussian => {
            rand_distr::NormalInverseGaussian::new(arg_f32(s, 0), arg_f32(s, 1))
                .unwrap()
                .sample(r)
        },
        Distribution::Pareto => rand_distr::Pareto::new(arg_f32(s, 0), arg_f32(s, 1))
            .unwrap()
            .sample(r),
        Distribution::Pert => rand_distr::Pert::new(arg_f32(s, 0), arg_f32(s, 1))
            .with_shape(arg_f32(s, 2))
            .with_mode(arg_f32(s, 3))
            .unwrap()
            .sample(r),
        Distribution::Poisson => rand_distr::Poisson::new(arg_f32(s, 0)).unwrap().sample(r),
        Distribution::SkewNormal => {
            rand_distr::SkewNormal::new(arg_f32(s, 0), arg_f32(s, 1), arg_f32(s, 2))
                .unwrap()
                .sample(r)
        },
        Distribution::StandardNormal => rand_distr::StandardNormal.sample(r),
        Distribution::StandardUniform => rand_distr::StandardUniform.sample(r),
        Distribution::StudentT => rand_distr::StudentT::new(arg_f32(s, 0)).unwrap().sample(r),
        Distribution::Triangular => {
            rand_distr::Triangular::new(arg_f32(s, 0), arg_f32(s, 1), arg_f32(s, 2))
                .unwrap()
                .sample(r)
        },
        Distribution::Uniform => {
            if s.arg_count() == 1 {
                rand_distr::Uniform::new_inclusive(arg_f32(s, 0), arg_f32(s, 0))
                    .unwrap()
                    .sample(r)
            } else {
                rand_distr::Uniform::new_inclusive(arg_f32(s, 0), arg_f32(s, 1))
                    .unwrap()
                    .sample(r)
            }
        },
        Distribution::Weibull => rand_distr::Weibull::new(arg_f32(s, 0), arg_f32(s, 1))
            .unwrap()
            .sample(r),
    }
}

#[test]
fn every_built_sampler_draws_finite_values() {
    let text: &[u8] = b"\
beta(2, 5) $ x\n\
cauchy(0, 1) $ x\n\
chi_squared(3) $ x\n\
exp(1.5) $ x\n\
exp1() $ x\n\
fisher_f(2, 3) $ x\n\
frechet(0, 1, 1) $ x\n\
gamma(2, 2) $ x\n\
gumbel(0.5, 2) $ x\n\
inverse_gaussian(1, 1) $ x\n\
log_normal(0, 0.25) $ x\n\
normal(2, 3) $ x\n\
normal_inverse_gaussian(2, 1) $ x\n\
pareto(1, 2) $ x\n\
pert(0, 10, 4, 5) $ x\n\
poisson(3.5) $ x\n\
skew_normal(0, 1, 4) $ x\n\
standard_normal() $ x\n\
standard_uniform() $ x\n\
student_t(5) $ x\n\
triangular(0, 10, 5) $ x\n\
uniform(1, 2) $ x\n\
weibull(1, 1.5) $ x\n";
    let tab = read(text).unwrap();
    assert_eq!(tab.cmds.len(), 23);
    for cmd in &tab.cmds {
        for _ in 0..100 {
            let v = draw(&cmd.dist);
            assert!(v.is_finite(), "non-finite draw from {:?}", cmd.dist.family());
            assert!(!v.is_nan(), "NaN draw from {:?}", cmd.dist.family());
        }
    }
}

#[test]
fn uniform_on_a_point_always_draws_that_point() {
    let tab = read(b"uniform(5) $ x").unwrap();
    let s = &tab.cmds[0].dist;
    for _ in 0..100 {
        assert_eq!(draw(s), 5.0);
    }
}

#[test]
fn uniform_range_draws_stay_inside_it() {
    let tab = read(b"uniform(1, 2) $ x").unwrap();
    let s = &tab.cmds[0].dist;
    for _ in 0..100 {
        let v = draw(s);
        assert!((1.0..=2.0).contains(&v));
    }
}
