//! The distribution builder.
//!
//! `build_dyn_distf32` turns a distribution name and its numeric arguments
//! into a validated [`Sampler`] description, or a [`DistributionError`]: the
//! name may be unrecognized, the argument count may not match the family's
//! arity, or a parameter may lie outside the family's domain.  Every check
//! happens here, over the exact decimal values of the literals, so that
//! drawing from a built sampler can never fail.
use crate::decimal::Dec;
use crate::decimal::NumLit;
use crate::decimal::NumView;
use crate::decimal::abs_i;
use crate::decimal::dec_abs_lt;
use crate::decimal::dec_is_pos;
use crate::decimal::dec_is_zero;
use crate::decimal::dec_le;
use crate::decimal::dec_lt;
use crate::decimal::dec_mant;
use crate::decimal::dec_repr_ok;
use crate::decimal::dec_scale;
use crate::decimal::dec_wf;
use crate::decimal::lemma_val_le_not_lt;
use crate::decimal::lemma_val_lt_zero_mant;
use crate::decimal::lit_mant;
use crate::decimal::lit_scale;
use crate::decimal::normalize;
use crate::decimal::views_of;
use crate::decimal::repr_ok;
use crate::decimal::val_le;
use crate::decimal::val_lt;
use vstd::prelude::*;

verus! {

/// The closed set of distribution families the builder recognizes.
#[derive(Clone, Copy, PartialEq, Eq, Structural, Debug)]
pub enum Distribution {
    Beta,
    Cauchy,
    ChiSquared,
    Exp,
    Exp1,
    FisherF,
    Frechet,
    Gamma,
    Gumbel,
    InverseGaussian,
    LogNormal,
    Normal,
    NormalInverseGaussian,
    Pareto,
    Pert,
    Poisson,
    SkewNormal,
    StandardNormal,
    StandardUniform,
    StudentT,
    Triangular,
    Uniform,
    Weibull,
}

/// Why a build failed.
#[derive(Debug, PartialEq, Eq)]
pub enum DistributionError {
    /// The name matches no family and no alias; it is carried for reporting.
    UnknownName(Vec<u8>),
    /// The argument count does not match the family's arity.
    WrongArgCount,
    /// A parameter lies outside the family's domain.
    BadParam,
}

/// The recognized distribution names and aliases; matching is exact and
/// case-sensitive.
pub open spec fn family_of(n: Seq<u8>) -> Option<Distribution> {
    if n == seq![98u8, 101, 116, 97] {  // beta
        Some(Distribution::Beta)
    } else if n == seq![99u8, 97, 117, 99, 104, 121] {  // cauchy
        Some(Distribution::Cauchy)
    } else if n == seq![99u8, 104, 105, 95, 115, 113, 117, 97, 114, 101, 100] {  // chi_squared
        Some(Distribution::ChiSquared)
    } else if n == seq![99u8, 104, 105, 115, 113, 117, 97, 114, 101, 100] {  // chisquared
        Some(Distribution::ChiSquared)
    } else if n == seq![99u8, 104, 105, 50] {  // chi2
        Some(Distribution::ChiSquared)
    } else if n == seq![101u8, 120, 112] {  // exp
        Some(Distribution::Exp)
    } else if n == seq![101u8, 120, 112, 111, 110, 101, 110, 116, 105, 97, 108] {  // exponential
        Some(Distribution::Exp)
    } else if n == seq![101u8, 120, 112, 49] {  // exp1
        Some(Distribution::Exp1)
    } else if n == seq![102u8, 105, 115, 104, 101, 114, 95, 102] {  // fisher_f
        Some(Distribution::FisherF)
    } else if n == seq![102u8, 105, 115, 104, 101, 114, 102] {  // fisherf
        Some(Distribution::FisherF)
    } else if n == seq![102u8] {  // f
        Some(Distribution::FisherF)
    } else if n == seq![102u8, 114, 101, 99, 104, 101, 116] {  // frechet
        Some(Distribution::Frechet)
    } else if n == seq![103u8, 97, 109, 109, 97] {  // gamma
        Some(Distribution::Gamma)
    } else if n == seq![103u8, 117, 109, 98, 101, 108] {  // gumbel
        Some(Distribution::Gumbel)
    } else if n == seq![105u8, 110, 118, 101, 114, 115, 101, 95, 103, 97, 117, 115, 115, 105, 97, 110] {  // inverse_gaussian
        Some(Distribution::InverseGaussian)
    } else if n == seq![105u8, 110, 118, 101, 114, 115, 101, 103, 97, 117, 115, 115, 105, 97, 110] {  // inversegaussian
        Some(Distribution::InverseGaussian)
    } else if n == seq![119u8, 97, 108, 100] {  // wald
        Some(Distribution::InverseGaussian)
    } else if n == seq![108u8, 111, 103, 95, 110, 111, 114, 109, 97, 108] {  // log_normal
        Some(Distribution::LogNormal)
    } else if n == seq![108u8, 111, 103, 110, 111, 114, 109, 97, 108] {  // lognormal
        Some(Distribution::LogNormal)
    } else if n == seq![110u8, 111, 114, 109, 97, 108] {  // normal
        Some(Distribution::Normal)
    } else if n == seq![110u8, 111, 114, 109, 97, 108, 95, 105, 110, 118, 101, 114, 115, 101, 95, 103, 97, 117, 115, 115, 105, 97, 110] {  // normal_inverse_gaussian
        Some(Distribution::NormalInverseGaussian)
    } else if n == seq![110u8, 111, 114, 109, 97, 108, 105, 110, 118, 101, 114, 115, 101, 103, 97, 117, 115, 115, 105, 97, 110] {  // normalinversegaussian
        Some(Distribution::NormalInverseGaussian)
    } else if n == seq![110u8, 105, 103] {  // nig
        Some(Distribution::NormalInverseGaussian)
    } else if n == seq![112u8, 97, 114, 101, 116, 111] {  // pareto
        Some(Distribution::Pareto)
    } else if n == seq![112u8, 101, 114, 116] {  // pert
        Some(Distribution::Pert)
    } else if n == seq![112u8, 111, 105, 115, 115, 111, 110] {  // poisson
        Some(Distribution::Poisson)
    } else if n == seq![115u8, 107, 101, 119, 95, 110, 111, 114, 109, 97, 108] {  // skew_normal
        Some(Distribution::SkewNormal)
    } else if n == seq![115u8, 107, 101, 119, 110, 111, 114, 109, 97, 108] {  // skewnormal
        Some(Distribution::SkewNormal)
    } else if n == seq![115u8, 116, 97, 110, 100, 97, 114, 100, 95, 110, 111, 114, 109, 97, 108] {  // standard_normal
        Some(Distribution::StandardNormal)
    } else if n == seq![115u8, 116, 100, 95, 110, 111, 114, 109, 97, 108] {  // std_normal
        Some(Distribution::StandardNormal)
    } else if n == seq![115u8, 116, 97, 110, 100, 97, 114, 100, 95, 117, 110, 105, 102, 111, 114, 109] {  // standard_uniform
        Some(Distribution::StandardUniform)
    } else if n == seq![115u8, 116, 100, 95, 117, 110, 105, 102, 111, 114, 109] {  // std_uniform
        Some(Distribution::StandardUniform)
    } else if n == seq![115u8, 116, 117, 100, 101, 110, 116, 95, 116] {  // student_t
        Some(Distribution::StudentT)
    } else if n == seq![115u8, 116, 117, 100, 101, 110, 116, 116] {  // studentt
        Some(Distribution::StudentT)
    } else if n == seq![116u8] {  // t
        Some(Distribution::StudentT)
    } else if n == seq![116u8, 114, 105, 97, 110, 103, 117, 108, 97, 114] {  // triangular
        Some(Distribution::Triangular)
    } else if n == seq![117u8, 110, 105, 102, 111, 114, 109] {  // uniform
        Some(Distribution::Uniform)
    } else if n == seq![119u8, 101, 105, 98, 117, 108, 108] {  // weibull
        Some(Distribution::Weibull)
    } else {
        None
    }
}

fn family_lookup(name: &[u8]) -> (r: Option<Distribution>)
    ensures
        r == family_of(name@),
{
    // beta
    let p0: Vec<u8> = vec![98u8, 101, 116, 97];
    proof { assert(p0@ =~= seq![98u8, 101, 116, 97]); }
    if eq_lit(name, p0) {
        return Some(Distribution::Beta);
    }
    // cauchy
    let p1: Vec<u8> = vec![99u8, 97, 117, 99, 104, 121];
    proof { assert(p1@ =~= seq![99u8, 97, 117, 99, 104, 121]); }
    if eq_lit(name, p1) {
        return Some(Distribution::Cauchy);
    }
    // chi_squared
    let p2: Vec<u8> = vec![99u8, 104, 105, 95, 115, 113, 117, 97, 114, 101, 100];
    proof { assert(p2@ =~= seq![99u8, 104, 105, 95, 115, 113, 117, 97, 114, 101, 100]); }
    if eq_lit(name, p2) {
        return Some(Distribution::ChiSquared);
    }
    // chisquared
    let p3: Vec<u8> = vec![99u8, 104, 105, 115, 113, 117, 97, 114, 101, 100];
    proof { assert(p3@ =~= seq![99u8, 104, 105, 115, 113, 117, 97, 114, 101, 100]); }
    if eq_lit(name, p3) {
        return Some(Distribution::ChiSquared);
    }
    // chi2
    let p4: Vec<u8> = vec![99u8, 104, 105, 50];
    proof { assert(p4@ =~= seq![99u8, 104, 105, 50]); }
    if eq_lit(name, p4) {
        return Some(Distribution::ChiSquared);
    }
    // exp
    let p5: Vec<u8> = vec![101u8, 120, 112];
    proof { assert(p5@ =~= seq![101u8, 120, 112]); }
    if eq_lit(name, p5) {
        return Some(Distribution::Exp);
    }
    // exponential
    let p6: Vec<u8> = vec![101u8, 120, 112, 111, 110, 101, 110, 116, 105, 97, 108];
    proof { assert(p6@ =~= seq![101u8, 120, 112, 111, 110, 101, 110, 116, 105, 97, 108]); }
    if eq_lit(name, p6) {
        return Some(Distribution::Exp);
    }
    // exp1
    let p7: Vec<u8> = vec![101u8, 120, 112, 49];
    proof { assert(p7@ =~= seq![101u8, 120, 112, 49]); }
    if eq_lit(name, p7) {
        return Some(Distribution::Exp1);
    }
    // fisher_f
    let p8: Vec<u8> = vec![102u8, 105, 115, 104, 101, 114, 95, 102];
    proof { assert(p8@ =~= seq![102u8, 105, 115, 104, 101, 114, 95, 102]); }
    if eq_lit(name, p8) {
        return Some(Distribution::FisherF);
    }
    // fisherf
    let p9: Vec<u8> = vec![102u8, 105, 115, 104, 101, 114, 102];
    proof { assert(p9@ =~= seq![102u8, 105, 115, 104, 101, 114, 102]); }
    if eq_lit(name, p9) {
        return Some(Distribution::FisherF);
    }
    // f
    let p10: Vec<u8> = vec![102u8];
    proof { assert(p10@ =~= seq![102u8]); }
    if eq_lit(name, p10) {
        return Some(Distribution::FisherF);
    }
    // frechet
    let p11: Vec<u8> = vec![102u8, 114, 101, 99, 104, 101, 116];
    proof { assert(p11@ =~= seq![102u8, 114, 101, 99, 104, 101, 116]); }
    if eq_lit(name, p11) {
        return Some(Distribution::Frechet);
    }
    // gamma
    let p12: Vec<u8> = vec![103u8, 97, 109, 109, 97];
    proof { assert(p12@ =~= seq![103u8, 97, 109, 109, 97]); }
    if eq_lit(name, p12) {
        return Some(Distribution::Gamma);
    }
    // gumbel
    let p13: Vec<u8> = vec![103u8, 117, 109, 98, 101, 108];
    proof { assert(p13@ =~= seq![103u8, 117, 109, 98, 101, 108]); }
    if eq_lit(name, p13) {
        return Some(Distribution::Gumbel);
    }
    // inverse_gaussian
    let p14: Vec<u8> = vec![105u8, 110, 118, 101, 114, 115, 101, 95, 103, 97, 117, 115, 115, 105, 97, 110];
    proof { assert(p14@ =~= seq![105u8, 110, 118, 101, 114, 115, 101, 95, 103, 97, 117, 115, 115, 105, 97, 110]); }
    if eq_lit(name, p14) {
        return Some(Distribution::InverseGaussian);
    }
    // inversegaussian
    let p15: Vec<u8> = vec![105u8, 110, 118, 101, 114, 115, 101, 103, 97, 117, 115, 115, 105, 97, 110];
    proof { assert(p15@ =~= seq![105u8, 110, 118, 101, 114, 115, 101, 103, 97, 117, 115, 115, 105, 97, 110]); }
    if eq_lit(name, p15) {
        return Some(Distribution::InverseGaussian);
    }
    // wald
    let p16: Vec<u8> = vec![119u8, 97, 108, 100];
    proof { assert(p16@ =~= seq![119u8, 97, 108, 100]); }
    if eq_lit(name, p16) {
        return Some(Distribution::InverseGaussian);
    }
    // log_normal
    let p17: Vec<u8> = vec![108u8, 111, 103, 95, 110, 111, 114, 109, 97, 108];
    proof { assert(p17@ =~= seq![108u8, 111, 103, 95, 110, 111, 114, 109, 97, 108]); }
    if eq_lit(name, p17) {
        return Some(Distribution::LogNormal);
    }
    // lognormal
    let p18: Vec<u8> = vec![108u8, 111, 103, 110, 111, 114, 109, 97, 108];
    proof { assert(p18@ =~= seq![108u8, 111, 103, 110, 111, 114, 109, 97, 108]); }
    if eq_lit(name, p18) {
        return Some(Distribution::LogNormal);
    }
    // normal
    let p19: Vec<u8> = vec![110u8, 111, 114, 109, 97, 108];
    proof { assert(p19@ =~= seq![110u8, 111, 114, 109, 97, 108]); }
    if eq_lit(name, p19) {
        return Some(Distribution::Normal);
    }
    // normal_inverse_gaussian
    let p20: Vec<u8> = vec![110u8, 111, 114, 109, 97, 108, 95, 105, 110, 118, 101, 114, 115, 101, 95, 103, 97, 117, 115, 115, 105, 97, 110];
    proof { assert(p20@ =~= seq![110u8, 111, 114, 109, 97, 108, 95, 105, 110, 118, 101, 114, 115, 101, 95, 103, 97, 117, 115, 115, 105, 97, 110]); }
    if eq_lit(name, p20) {
        return Some(Distribution::NormalInverseGaussian);
    }
    // normalinversegaussian
    let p21: Vec<u8> = vec![110u8, 111, 114, 109, 97, 108, 105, 110, 118, 101, 114, 115, 101, 103, 97, 117, 115, 115, 105, 97, 110];
    proof { assert(p21@ =~= seq![110u8, 111, 114, 109, 97, 108, 105, 110, 118, 101, 114, 115, 101, 103, 97, 117, 115, 115, 105, 97, 110]); }
    if eq_lit(name, p21) {
        return Some(Distribution::NormalInverseGaussian);
    }
    // nig
    let p22: Vec<u8> = vec![110u8, 105, 103];
    proof { assert(p22@ =~= seq![110u8, 105, 103]); }
    if eq_lit(name, p22) {
        return Some(Distribution::NormalInverseGaussian);
    }
    // pareto
    let p23: Vec<u8> = vec![112u8, 97, 114, 101, 116, 111];
    proof { assert(p23@ =~= seq![112u8, 97, 114, 101, 116, 111]); }
    if eq_lit(name, p23) {
        return Some(Distribution::Pareto);
    }
    // pert
    let p24: Vec<u8> = vec![112u8, 101, 114, 116];
    proof { assert(p24@ =~= seq![112u8, 101, 114, 116]); }
    if eq_lit(name, p24) {
        return Some(Distribution::Pert);
    }
    // poisson
    let p25: Vec<u8> = vec![112u8, 111, 105, 115, 115, 111, 110];
    proof { assert(p25@ =~= seq![112u8, 111, 105, 115, 115, 111, 110]); }
    if eq_lit(name, p25) {
        return Some(Distribution::Poisson);
    }
    // skew_normal
    let p26: Vec<u8> = vec![115u8, 107, 101, 119, 95, 110, 111, 114, 109, 97, 108];
    proof { assert(p26@ =~= seq![115u8, 107, 101, 119, 95, 110, 111, 114, 109, 97, 108]); }
    if eq_lit(name, p26) {
        return Some(Distribution::SkewNormal);
    }
    // skewnormal
    let p27: Vec<u8> = vec![115u8, 107, 101, 119, 110, 111, 114, 109, 97, 108];
    proof { assert(p27@ =~= seq![115u8, 107, 101, 119, 110, 111, 114, 109, 97, 108]); }
    if eq_lit(name, p27) {
        return Some(Distribution::SkewNormal);
    }
    // standard_normal
    let p28: Vec<u8> = vec![115u8, 116, 97, 110, 100, 97, 114, 100, 95, 110, 111, 114, 109, 97, 108];
    proof { assert(p28@ =~= seq![115u8, 116, 97, 110, 100, 97, 114, 100, 95, 110, 111, 114, 109, 97, 108]); }
    if eq_lit(name, p28) {
        return Some(Distribution::StandardNormal);
    }
    // std_normal
    let p29: Vec<u8> = vec![115u8, 116, 100, 95, 110, 111, 114, 109, 97, 108];
    proof { assert(p29@ =~= seq![115u8, 116, 100, 95, 110, 111, 114, 109, 97, 108]); }
    if eq_lit(name, p29) {
        return Some(Distribution::StandardNormal);
    }
    // standard_uniform
    let p30: Vec<u8> = vec![115u8, 116, 97, 110, 100, 97, 114, 100, 95, 117, 110, 105, 102, 111, 114, 109];
    proof { assert(p30@ =~= seq![115u8, 116, 97, 110, 100, 97, 114, 100, 95, 117, 110, 105, 102, 111, 114, 109]); }
    if eq_lit(name, p30) {
        return Some(Distribution::StandardUniform);
    }
    // std_uniform
    let p31: Vec<u8> = vec![115u8, 116, 100, 95, 117, 110, 105, 102, 111, 114, 109];
    proof { assert(p31@ =~= seq![115u8, 116, 100, 95, 117, 110, 105, 102, 111, 114, 109]); }
    if eq_lit(name, p31) {
        return Some(Distribution::StandardUniform);
    }
    // student_t
    let p32: Vec<u8> = vec![115u8, 116, 117, 100, 101, 110, 116, 95, 116];
    proof { assert(p32@ =~= seq![115u8, 116, 117, 100, 101, 110, 116, 95, 116]); }
    if eq_lit(name, p32) {
        return Some(Distribution::StudentT);
    }
    // studentt
    let p33: Vec<u8> = vec![115u8, 116, 117, 100, 101, 110, 116, 116];
    proof { assert(p33@ =~= seq![115u8, 116, 117, 100, 101, 110, 116, 116]); }
    if eq_lit(name, p33) {
        return Some(Distribution::StudentT);
    }
    // t
    let p34: Vec<u8> = vec![116u8];
    proof { assert(p34@ =~= seq![116u8]); }
    if eq_lit(name, p34) {
        return Some(Distribution::StudentT);
    }
    // triangular
    let p35: Vec<u8> = vec![116u8, 114, 105, 97, 110, 103, 117, 108, 97, 114];
    proof { assert(p35@ =~= seq![116u8, 114, 105, 97, 110, 103, 117, 108, 97, 114]); }
    if eq_lit(name, p35) {
        return Some(Distribution::Triangular);
    }
    // uniform
    let p36: Vec<u8> = vec![117u8, 110, 105, 102, 111, 114, 109];
    proof { assert(p36@ =~= seq![117u8, 110, 105, 102, 111, 114, 109]); }
    if eq_lit(name, p36) {
        return Some(Distribution::Uniform);
    }
    // weibull
    let p37: Vec<u8> = vec![119u8, 101, 105, 98, 117, 108, 108];
    proof { assert(p37@ =~= seq![119u8, 101, 105, 98, 117, 108, 108]); }
    if eq_lit(name, p37) {
        return Some(Distribution::Weibull);
    }
    None
}

/// The required argument count of each family other than `uniform`.
pub open spec fn req_arity(d: Distribution) -> nat {
    match d {
        Distribution::Beta => 2,
        Distribution::Cauchy => 2,
        Distribution::ChiSquared => 1,
        Distribution::Exp => 1,
        Distribution::Exp1 => 0,
        Distribution::FisherF => 2,
        Distribution::Frechet => 3,
        Distribution::Gamma => 2,
        Distribution::Gumbel => 2,
        Distribution::InverseGaussian => 2,
        Distribution::LogNormal => 2,
        Distribution::Normal => 2,
        Distribution::NormalInverseGaussian => 2,
        Distribution::Pareto => 2,
        Distribution::Pert => 4,
        Distribution::Poisson => 1,
        Distribution::SkewNormal => 3,
        Distribution::StandardNormal => 0,
        Distribution::StandardUniform => 0,
        Distribution::StudentT => 1,
        Distribution::Triangular => 3,
        Distribution::Uniform => 1,
        Distribution::Weibull => 2,
    }
}

/// Whether `n` arguments fit family `d`: `uniform` takes one or two, every
/// other family its fixed arity.
pub open spec fn arity_ok(d: Distribution, n: nat) -> bool {
    if d is Uniform {
        n == 1 || n == 2
    } else {
        n == req_arity(d)
    }
}

fn arity_check(d: Distribution, n: usize) -> (r: bool)
    ensures
        r == arity_ok(d, n as nat),
{
    match d {
        Distribution::Uniform => n == 1 || n == 2,
        Distribution::Beta => n == 2,
        Distribution::Cauchy => n == 2,
        Distribution::ChiSquared => n == 1,
        Distribution::Exp => n == 1,
        Distribution::Exp1 => n == 0,
        Distribution::FisherF => n == 2,
        Distribution::Frechet => n == 3,
        Distribution::Gamma => n == 2,
        Distribution::Gumbel => n == 2,
        Distribution::InverseGaussian => n == 2,
        Distribution::LogNormal => n == 2,
        Distribution::Normal => n == 2,
        Distribution::NormalInverseGaussian => n == 2,
        Distribution::Pareto => n == 2,
        Distribution::Pert => n == 4,
        Distribution::Poisson => n == 1,
        Distribution::SkewNormal => n == 3,
        Distribution::StandardNormal => n == 0,
        Distribution::StandardUniform => n == 0,
        Distribution::StudentT => n == 1,
        Distribution::Triangular => n == 3,
        Distribution::Weibull => n == 2,
    }
}

/// Argument `i` is strictly positive.
pub open spec fn a_pos(args: Seq<NumView>, i: int) -> bool {
    lit_mant(args[i]) > 0
}

/// Argument `i` is at least zero.
pub open spec fn a_nonneg(args: Seq<NumView>, i: int) -> bool {
    lit_mant(args[i]) >= 0
}

/// Argument `i` is at most argument `j`.
pub open spec fn a_le(args: Seq<NumView>, i: int, j: int) -> bool {
    val_le(lit_mant(args[i]), lit_scale(args[i]), lit_mant(args[j]), lit_scale(args[j]))
}

/// Argument `i` is strictly below argument `j`.
pub open spec fn a_lt(args: Seq<NumView>, i: int, j: int) -> bool {
    val_lt(lit_mant(args[i]), lit_scale(args[i]), lit_mant(args[j]), lit_scale(args[j]))
}

/// |argument i| is strictly below argument `j`.
pub open spec fn a_abs_lt(args: Seq<NumView>, i: int, j: int) -> bool {
    val_lt(abs_i(lit_mant(args[i])), lit_scale(args[i]), lit_mant(args[j]), lit_scale(args[j]))
}

/// Argument `i` is strictly below 10^19 (the Poisson rate cap).
pub open spec fn a_lt_p19(args: Seq<NumView>, i: int) -> bool {
    val_lt(lit_mant(args[i]), lit_scale(args[i]), 1, 19)
}

/// Every argument is of representable magnitude.
pub open spec fn all_repr(args: Seq<NumView>) -> bool {
    forall|i: int|
        0 <= i < args.len() ==> repr_ok(lit_mant(#[trigger] args[i]), lit_scale(args[i]))
}

/// The domain of each family, over the exact decimal argument values, for an
/// argument list of matching arity.  Shape parameters must be positive,
/// location parameters may be any representable value, and range-style
/// parameters must be ordered, mirroring what each family's sampler needs.
pub open spec fn domain_ok(d: Distribution, args: Seq<NumView>) -> bool {
    &&& all_repr(args)
    &&& match d {
        Distribution::Beta => a_pos(args, 0) && a_pos(args, 1),
        Distribution::Cauchy => a_pos(args, 1),
        Distribution::ChiSquared => a_pos(args, 0),
        Distribution::Exp => a_pos(args, 0),
        Distribution::Exp1 => true,
        Distribution::FisherF => a_pos(args, 0) && a_pos(args, 1),
        Distribution::Frechet => a_pos(args, 1) && a_pos(args, 2),
        Distribution::Gamma => a_pos(args, 0) && a_pos(args, 1),
        Distribution::Gumbel => a_pos(args, 1),
        Distribution::InverseGaussian => a_pos(args, 0) && a_pos(args, 1),
        Distribution::LogNormal => true,
        Distribution::Normal => true,
        Distribution::NormalInverseGaussian => a_pos(args, 0) && a_abs_lt(args, 1, 0),
        Distribution::Pareto => a_pos(args, 0) && a_pos(args, 1),
        Distribution::Pert => a_lt(args, 0, 1) && a_nonneg(args, 2) && a_le(args, 0, 3) && a_le(
            args,
            3,
            1,
        ),
        Distribution::Poisson => a_pos(args, 0) && a_lt_p19(args, 0),
        Distribution::SkewNormal => a_pos(args, 1),
        Distribution::StandardNormal => true,
        Distribution::StandardUniform => true,
        Distribution::StudentT => a_pos(args, 0),
        Distribution::Triangular => a_le(args, 0, 1) && a_le(args, 0, 2) && a_le(args, 2, 1),
        Distribution::Uniform => if args.len() == 2 {
            a_le(args, 0, 1)
        } else {
            true
        },
        Distribution::Weibull => a_pos(args, 0) && a_pos(args, 1),
    }
}

/// The exact outcome the builder must produce for a name and argument list.
pub ghost enum BuildOutcome {
    Unknown,
    Arity,
    Domain,
    Built(Distribution),
}

pub open spec fn build_outcome(name: Seq<u8>, args: Seq<NumView>) -> BuildOutcome {
    match family_of(name) {
        None => BuildOutcome::Unknown,
        Some(d) => if !arity_ok(d, args.len()) {
            BuildOutcome::Arity
        } else if !domain_ok(d, args) {
            BuildOutcome::Domain
        } else {
            BuildOutcome::Built(d)
        },
    }
}

/// Law: for a recognized family, the builder rejects an argument list for
/// its count exactly when the count does not match the family's arity (one
/// or two for `uniform`, the fixed arity otherwise).
pub proof fn lemma_build_arity(name: Seq<u8>, args: Seq<NumView>, d: Distribution)
    requires
        family_of(name) == Some(d),
    ensures
        (build_outcome(name, args) == BuildOutcome::Arity) <==> !arity_ok(d, args.len()),
{
}

pub ghost struct SamView {
    pub family: Distribution,
    pub args: Seq<NumView>,
}

/// A validated sampler description: the family, and arguments whose count
/// and values the builder has checked.  Construction goes through
/// `build_dyn_distf32` only, so a sampler in hand always satisfies its
/// domain, and drawing from it cannot fail.
#[derive(Debug)]
pub struct Sampler {
    family: Distribution,
    args: Vec<NumLit>,
}

impl View for Sampler {
    type V = SamView;

    closed spec fn view(&self) -> SamView {
        SamView { family: self.family, args: views_of(self.args@) }
    }
}

impl Sampler {
    #[verifier::type_invariant]
    pub closed spec fn inv(&self) -> bool {
        arity_ok(self.family, self.args@.len()) && domain_ok(self.family, views_of(self.args@))
    }

    pub fn family(&self) -> (r: Distribution)
        ensures
            r == self@.family,
    {
        self.family
    }

    /// The number of validated arguments; calling it also hands back the
    /// sampler's standing guarantees.
    pub fn arg_count(&self) -> (r: usize)
        ensures
            r as nat == self@.args.len(),
            arity_ok(self@.family, self@.args.len()),
            domain_ok(self@.family, self@.args),
    {
        proof {
            use_type_invariant(self);
        }
        self.args.len()
    }

    pub fn arg(&self, i: usize) -> (r: &NumLit)
        requires
            i < self@.args.len(),
        ensures
            r@ == self@.args[i as int],
    {
        &self.args[i]
    }

}

fn eq_lit(a: &[u8], b: Vec<u8>) -> (r: bool)
    ensures
        r == (a@ == b@),
{
    if a.len() != b.len() {
        proof {
            assert(a@.len() != b@.len());
        }
        return false;
    }
    let mut i: usize = 0;
    while i < a.len()
        invariant
            0 <= i <= a@.len(),
            a@.len() == b@.len(),
            forall|j: int| 0 <= j < i ==> a@[j] == b@[j],
        decreases a@.len() - i,
    {
        if a[i] != b[i] {
            return false;
        }
        i = i + 1;
    }
    proof {
        assert(a@ =~= b@);
    }
    true
}

// comparison helpers over normalized values, stated over the literals

fn chk_pos(dc: &Dec, Ghost(v): Ghost<NumView>) -> (r: bool)
    requires
        dec_wf(*dc),
        dec_mant(*dc) == lit_mant(v),
    ensures
        r == (lit_mant(v) > 0),
{
    dec_is_pos(dc)
}

fn chk_nonneg(dc: &Dec, Ghost(v): Ghost<NumView>) -> (r: bool)
    requires
        dec_wf(*dc),
        dec_mant(*dc) == lit_mant(v),
    ensures
        r == (lit_mant(v) >= 0),
{
    if dec_is_zero(dc) {
        true
    } else {
        dec_is_pos(dc)
    }
}

/// The preconditions tying a normalized value to the literal it came from,
/// with an exactly evaluated exponent.
pub open spec fn tracks(dc: Dec, v: NumView) -> bool {
    &&& dec_wf(dc)
    &&& dc.e as int == dc.te@
    &&& dec_mant(dc) == lit_mant(v)
    &&& (dec_mant(dc) != 0 ==> dec_scale(dc) == lit_scale(v))
}

fn chk_le(a: &Dec, b: &Dec, Ghost(va): Ghost<NumView>, Ghost(vb): Ghost<NumView>) -> (r: bool)
    requires
        tracks(*a, va),
        tracks(*b, vb),
    ensures
        r == val_le(lit_mant(va), lit_scale(va), lit_mant(vb), lit_scale(vb)),
{
    proof {
        lemma_cmp_bridge(*a, *b, va, vb);
    }
    dec_le(a, b)
}

fn chk_lt(a: &Dec, b: &Dec, Ghost(va): Ghost<NumView>, Ghost(vb): Ghost<NumView>) -> (r: bool)
    requires
        tracks(*a, va),
        tracks(*b, vb),
    ensures
        r == val_lt(lit_mant(va), lit_scale(va), lit_mant(vb), lit_scale(vb)),
{
    proof {
        lemma_cmp_bridge(*a, *b, va, vb);
    }
    dec_lt(a, b)
}

fn chk_abs_lt(a: &Dec, b: &Dec, Ghost(va): Ghost<NumView>, Ghost(vb): Ghost<NumView>) -> (r: bool)
    requires
        tracks(*a, va),
        tracks(*b, vb),
    ensures
        r == val_lt(abs_i(lit_mant(va)), lit_scale(va), abs_i(lit_mant(vb)), lit_scale(vb)),
{
    proof {
        lemma_val_lt_zero_mant(dec_scale(*a), lit_scale(va), abs_i(lit_mant(vb)), dec_scale(*b));
        lemma_val_lt_zero_mant(dec_scale(*b), lit_scale(vb), abs_i(lit_mant(va)), lit_scale(va));
    }
    dec_abs_lt(a, b)
}

/// The comparison of two tracked values over their stored scales equals the
/// comparison over the literals' scales: a zero mantissa makes the scale
/// irrelevant.
proof fn lemma_cmp_bridge(a: Dec, b: Dec, va: NumView, vb: NumView)
    requires
        tracks(a, va),
        tracks(b, vb),
    ensures
        val_lt(dec_mant(a), dec_scale(a), dec_mant(b), dec_scale(b)) == val_lt(
            lit_mant(va),
            lit_scale(va),
            lit_mant(vb),
            lit_scale(vb),
        ),
        val_le(dec_mant(a), dec_scale(a), dec_mant(b), dec_scale(b)) == val_le(
            lit_mant(va),
            lit_scale(va),
            lit_mant(vb),
            lit_scale(vb),
        ),
{
    lemma_val_lt_zero_mant(dec_scale(a), lit_scale(va), dec_mant(b), dec_scale(b));
    lemma_val_lt_zero_mant(dec_scale(b), lit_scale(vb), lit_mant(va), lit_scale(va));
    lemma_val_lt_zero_mant(dec_scale(b), lit_scale(vb), dec_mant(a), dec_scale(a));
    lemma_val_lt_zero_mant(dec_scale(a), lit_scale(va), lit_mant(vb), lit_scale(vb));
    lemma_val_le_not_lt(dec_mant(a), dec_scale(a), dec_mant(b), dec_scale(b));
    lemma_val_le_not_lt(lit_mant(va), lit_scale(va), lit_mant(vb), lit_scale(vb));
}

fn chk_lt_p19(a: &Dec, Ghost(va): Ghost<NumView>) -> (r: bool)
    requires
        tracks(*a, va),
    ensures
        r == val_lt(lit_mant(va), lit_scale(va), 1, 19),
{
    let cap = Dec { neg: false, digits: vec![1u8], e: 20, te: Ghost(20int) };
    proof {
        assert(cap.digits@ =~= seq![1u8]);
        assert(crate::decimal::all_digits(cap.digits@));
        crate::decimal::lemma_pow10_pos(0);
        reveal_with_fuel(crate::decimal::digits_val, 2);
        assert(cap.digits@.drop_last() =~= Seq::<u8>::empty());
        assert(dec_mant(cap) == 1);
        assert(dec_scale(cap) == 19);
        lemma_val_lt_zero_mant(dec_scale(*a), lit_scale(va), 1, 19);
    }
    dec_lt(a, &cap)
}

/// Build a sampler from a distribution name and its numeric arguments: a
/// total dispatch over the recognized families.  The result is `Ok` exactly
/// when the name is recognized, the argument count fits the family's arity,
/// and every parameter lies in the family's domain; each failure reports
/// which of the three checks refused it.
pub fn build_dyn_distf32(name: &[u8], args: &[NumLit]) -> (r: Result<Sampler, DistributionError>)
    ensures
        ({
            let o = build_outcome(name@, views_of(args@));
            match o {
                BuildOutcome::Unknown => r matches Err(DistributionError::UnknownName(v)) && v@
                    == name@,
                BuildOutcome::Arity => r == Err::<Sampler, DistributionError>(
                    DistributionError::WrongArgCount,
                ),
                BuildOutcome::Domain => r == Err::<Sampler, DistributionError>(
                    DistributionError::BadParam,
                ),
                BuildOutcome::Built(d) => r matches Ok(s) && s@.family == d && s@.args == views_of(args@),
            }
        }),
{
    let ghost vs = views_of(args@);
    let fam = family_lookup(name);
    let d = match fam {
        None => {
            return Err(DistributionError::UnknownName(vstd::slice::slice_to_vec(name)));
        },
        Some(d) => d,
    };
    proof {
        assert(fam == Some(d));
        assert(views_of(args@).len() == args@.len());
    }
    if !arity_check(d, args.len()) {
        return Err(DistributionError::WrongArgCount);
    }
    // normalize every argument once
    let mut decs: Vec<Dec> = Vec::new();
    let mut i: usize = 0;
    while i < args.len()
        invariant
            family_of(name@) == Some(d),
            arity_ok(d, args@.len() as nat),
            0 <= i <= args@.len(),
            vs == views_of(args@),
            decs@.len() == i as int,
            forall|q: int|
                0 <= q < i ==> dec_wf(#[trigger] decs@[q]) && dec_mant(decs@[q]) == lit_mant(
                    vs[q],
                ) && (dec_mant(decs@[q]) != 0 ==> dec_scale(decs@[q]) == lit_scale(vs[q])),
        decreases args@.len() - i,
    {
        let dc = normalize(&args[i]);
        decs.push(dc);
        i = i + 1;
    }
    // every argument must be of representable magnitude
    let mut j: usize = 0;
    while j < decs.len()
        invariant
            family_of(name@) == Some(d),
            arity_ok(d, args@.len() as nat),
            0 <= j <= decs@.len(),
            decs@.len() == args@.len(),
            vs == views_of(args@),
            forall|q: int|
                0 <= q < decs@.len() ==> dec_wf(#[trigger] decs@[q]) && dec_mant(decs@[q])
                    == lit_mant(vs[q]) && (dec_mant(decs@[q]) != 0 ==> dec_scale(decs@[q])
                    == lit_scale(vs[q])),
            forall|q: int|
                0 <= q < j ==> repr_ok(lit_mant(#[trigger] vs[q]), lit_scale(vs[q])) && decs@[q].e
                    as int == decs@[q].te@,
        decreases decs@.len() - j,
    {
        let good = dec_repr_ok(&decs[j]);
        proof {
            // a zero value is representable under either scale
            if dec_mant(decs@[j as int]) == 0 {
                assert(repr_ok(dec_mant(decs@[j as int]), dec_scale(decs@[j as int])));
                assert(repr_ok(lit_mant(vs[j as int]), lit_scale(vs[j as int])));
            } else {
                assert(repr_ok(dec_mant(decs@[j as int]), dec_scale(decs@[j as int])) == repr_ok(
                    lit_mant(vs[j as int]),
                    lit_scale(vs[j as int]),
                ));
            }
        }
        if !good {
            proof {
                assert(!repr_ok(lit_mant(vs[j as int]), lit_scale(vs[j as int])));
                assert(!all_repr(vs)) by {
                    if all_repr(vs) {
                        assert(repr_ok(lit_mant(vs[j as int]), lit_scale(vs[j as int])));
                    }
                }
            }
            return Err(DistributionError::BadParam);
        }
        proof {
            if dec_mant(decs@[j as int]) == 0 {
                let dc = decs@[j as int];
                if dc.digits@.len() > 0 {
                    crate::decimal::lemma_digits_val_bounds(dc.digits@);
                    crate::decimal::lemma_pow10_pos((dc.digits@.len() - 1) as nat);
                }
                assert(dc.e as int == dc.te@);
            }
        }
        j = j + 1;
    }
    proof {
        assert(all_repr(vs));
        assert(forall|q: int| 0 <= q < decs@.len() ==> tracks(#[trigger] decs@[q], vs[q]));
    }
    // the family's own parameter conditions
    let ok: bool = match d {
        Distribution::Beta => chk_pos(&decs[0], Ghost(vs[0])) && chk_pos(&decs[1], Ghost(vs[1])),
        Distribution::Cauchy => chk_pos(&decs[1], Ghost(vs[1])),
        Distribution::ChiSquared => chk_pos(&decs[0], Ghost(vs[0])),
        Distribution::Exp => chk_pos(&decs[0], Ghost(vs[0])),
        Distribution::Exp1 => true,
        Distribution::FisherF => chk_pos(&decs[0], Ghost(vs[0])) && chk_pos(&decs[1], Ghost(vs[1])),
        Distribution::Frechet => chk_pos(&decs[1], Ghost(vs[1])) && chk_pos(
            &decs[2],
            Ghost(vs[2]),
        ),
        Distribution::Gamma => chk_pos(&decs[0], Ghost(vs[0])) && chk_pos(&decs[1], Ghost(vs[1])),
        Distribution::Gumbel => chk_pos(&decs[1], Ghost(vs[1])),
        Distribution::InverseGaussian => chk_pos(&decs[0], Ghost(vs[0])) && chk_pos(
            &decs[1],
            Ghost(vs[1]),
        ),
        Distribution::LogNormal => true,
        Distribution::Normal => true,
        Distribution::NormalInverseGaussian => chk_pos(&decs[0], Ghost(vs[0])) && chk_abs_lt(
            &decs[1],
            &decs[0],
            Ghost(vs[1]),
            Ghost(vs[0]),
        ),
        Distribution::Pareto => chk_pos(&decs[0], Ghost(vs[0])) && chk_pos(&decs[1], Ghost(vs[1])),
        Distribution::Pert => chk_lt(&decs[0], &decs[1], Ghost(vs[0]), Ghost(vs[1])) && chk_nonneg(
            &decs[2],
            Ghost(vs[2]),
        ) && chk_le(&decs[0], &decs[3], Ghost(vs[0]), Ghost(vs[3])) && chk_le(
            &decs[3],
            &decs[1],
            Ghost(vs[3]),
            Ghost(vs[1]),
        ),
        Distribution::Poisson => chk_pos(&decs[0], Ghost(vs[0])) && chk_lt_p19(
            &decs[0],
            Ghost(vs[0]),
        ),
        Distribution::SkewNormal => chk_pos(&decs[1], Ghost(vs[1])),
        Distribution::StandardNormal => true,
        Distribution::StandardUniform => true,
        Distribution::StudentT => chk_pos(&decs[0], Ghost(vs[0])),
        Distribution::Triangular => chk_le(&decs[0], &decs[1], Ghost(vs[0]), Ghost(vs[1]))
            && chk_le(&decs[0], &decs[2], Ghost(vs[0]), Ghost(vs[2])) && chk_le(
            &decs[2],
            &decs[1],
            Ghost(vs[2]),
            Ghost(vs[1]),
        ),
        Distribution::Uniform => if args.len() == 2 {
            chk_le(&decs[0], &decs[1], Ghost(vs[0]), Ghost(vs[1]))
        } else {
            true
        },
        Distribution::Weibull => chk_pos(&decs[0], Ghost(vs[0])) && chk_pos(&decs[1], Ghost(vs[1])),
    };
    if !ok {
        return Err(DistributionError::BadParam);
    }
    // keep a copy of the validated arguments
    let mut own: Vec<NumLit> = Vec::new();
    let mut k: usize = 0;
    while k < args.len()
        invariant
            family_of(name@) == Some(d),
            arity_ok(d, args@.len() as nat),
            0 <= k <= args@.len(),
            vs == views_of(args@),
            own@.len() == k as int,
            all_repr(vs),
            domain_ok(d, vs),
            forall|q: int| 0 <= q < k ==> #[trigger] own@[q]@ == vs[q],
        decreases args@.len() - k,
    {
        own.push(args[k].duplicate());
        k = k + 1;
    }
    let s = Sampler { family: d, args: own };
    proof {
        assert(s@.args =~= vs);
    }
    Ok(s)
}

} // verus!
