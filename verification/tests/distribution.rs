//! Fixtures for the distribution of the W statistic: exact CDF and PDF
//! values for small samples, and normal-approximation values evaluated from
//! the integers the library reports.

use statrs::distribution::{Continuous, ContinuousCDF, Normal};
use statrs::statistics::Distribution;
use stattest::signed_rank::{partitions, Approximation, DistributionValue, SignedRank};

/// The normal approximation that the carried integers determine, built with
/// the same floating-point steps as the approximation it stands for.
fn normal_of(n_eff: usize, tie_correction: u64) -> Normal {
    let mean = (n_eff * (n_eff + 1)) as f64 / 4.0;
    let var = mean * (2 * n_eff + 1) as f64 / 6.0 - tie_correction as f64 / 48.0;
    Normal::new(mean, var.sqrt()).unwrap()
}

/// Turn an exact or normal-approximate CDF value into a float: the dyadic
/// rational as a division, the approximation as the two-sided lower tail.
fn eval_cdf(value: DistributionValue) -> f64 {
    match value {
        DistributionValue::Exact {
            numerator,
            log2_denominator,
        } => numerator as f64 / 2f64.powi(log2_denominator as i32),
        DistributionValue::NormalApprox {
            n_eff,
            tie_correction,
            at_doubled,
        } => 2.0 * normal_of(n_eff, tie_correction).cdf(at_doubled as f64 / 2.0),
    }
}

/// Turn an exact or normal-approximate PDF value into a float.
fn eval_pdf(value: DistributionValue) -> f64 {
    match value {
        DistributionValue::Exact {
            numerator,
            log2_denominator,
        } => numerator as f64 / 2f64.powi(log2_denominator as i32),
        DistributionValue::NormalApprox {
            n_eff,
            tie_correction,
            at_doubled,
        } => normal_of(n_eff, tie_correction).pdf(at_doubled as f64 / 2.0),
    }
}

/// The standard deviation of a built distribution, as a float.
fn std_dev_of(distribution: &SignedRank) -> f64 {
    match distribution.approximation {
        Approximation::Exact => {
            let (num, den) = distribution.variance();
            (num as f64 / den as f64).sqrt()
        }
        Approximation::Normal { tie_correction } => normal_of(distribution.n, tie_correction)
            .std_dev()
            .unwrap(),
    }
}

fn mean_of(distribution: &SignedRank) -> f64 {
    let (num, den) = distribution.mean();
    num as f64 / den as f64
}

#[test]
fn n_20() {
    let distribution = SignedRank::new(20, 0, 0).unwrap();
    assert_eq!(mean_of(&distribution), 105.0);
    assert_eq!(std_dev_of(&distribution), 26.78619047195775);
    assert_eq!(eval_cdf(distribution.cdf(100)), 0.04004379807046464);
}

#[test]
fn n_30() {
    let distribution = SignedRank::new(30, 0, 0).unwrap();
    assert_eq!(mean_of(&distribution), 232.5);
    assert_eq!(std_dev_of(&distribution), 48.61841215013094);
    assert_eq!(eval_cdf(distribution.cdf(300)), 0.08971783777126728);
}

#[test]
fn n_20_exact() {
    let distribution = SignedRank::exact(20).unwrap();
    assert_eq!(eval_cdf(distribution.cdf(100)), 0.039989471435546875);
}

#[test]
fn n_11() {
    let distribution = SignedRank::exact(11).unwrap();
    assert_eq!(eval_cdf(distribution.cdf(22)), 0.0537109375);
    assert_eq!(eval_cdf(distribution.cdf(14)), 0.0185546875);
    assert_eq!(eval_cdf(distribution.cdf(10)), 0.009765625);
}

#[test]
fn n_10() {
    let distribution = SignedRank::exact(10).unwrap();
    assert_eq!(eval_cdf(distribution.cdf(16)), 0.048828125);
    assert_eq!(eval_cdf(distribution.cdf(10)), 0.01953125);
    assert_eq!(eval_cdf(distribution.cdf(6)), 0.009765625);
}

#[test]
fn n_9() {
    let distribution = SignedRank::exact(9).unwrap();
    assert_eq!(eval_cdf(distribution.cdf(12)), 0.0546875);
    assert_eq!(eval_cdf(distribution.cdf(6)), 0.01953125);
    assert_eq!(eval_cdf(distribution.cdf(4)), 0.01171875);
}

#[test]
fn n_8() {
    let distribution = SignedRank::exact(8).unwrap();
    assert_eq!(eval_cdf(distribution.cdf(8)), 0.0546875);
    assert_eq!(eval_cdf(distribution.cdf(6)), 0.0390625);
    assert_eq!(eval_cdf(distribution.cdf(5)), 0.0390625);
    assert_eq!(eval_cdf(distribution.cdf(4)), 0.0234375);
}

#[test]
fn n_8_pdf() {
    let distribution = SignedRank::exact(8).unwrap();
    assert_eq!(eval_pdf(distribution.pdf(8)), 0.0078125);
    assert_eq!(eval_pdf(distribution.pdf(6)), 0.0078125);
    assert_eq!(eval_pdf(distribution.pdf(4)), 0.00390625);
}

#[test]
fn n_8_ties() {
    let distribution = SignedRank::new(8, 0, 7).unwrap();
    assert_eq!(eval_cdf(distribution.cdf(6)), 0.03542823032427003);
    assert_eq!(eval_cdf(distribution.cdf(5)), 0.029739401378297385);
    assert_eq!(eval_cdf(distribution.cdf(4)), 0.024854396634115632);
}

#[test]
fn partition() {
    assert_eq!(partitions(7, 3, 5), 4);
}

#[test]
fn partition_empty_counts() {
    assert_eq!(partitions(0, 0, 5), 1);
    assert_eq!(partitions(5, 0, 5), 0);
    assert_eq!(partitions(5, 2, 0), 0);
    assert_eq!(partitions(3, 2, 2), 1);
}

#[test]
fn support_and_variance() {
    let distribution = SignedRank::exact(8).unwrap();
    assert_eq!(distribution.support(), (0, 72));
    assert_eq!(distribution.variance(), (8 * 9 * 17, 24));
    let approx = SignedRank::new(8, 0, 7).unwrap();
    assert_eq!(approx.variance(), (2 * 8 * 9 * 17 - 7, 48));
}

#[test]
fn symmetric_moments() {
    let exact = SignedRank::exact(9).unwrap();
    assert_eq!(exact.skewness(), (0, 1));
    assert_eq!(exact.median(), exact.mean());
    assert_eq!(exact.mode(), exact.mean());
    let approx = SignedRank::new(25, 0, 0).unwrap();
    assert_eq!(approx.skewness(), (0, 1));
    assert_eq!(approx.median(), approx.mean());
}

#[test]
fn bad_distribution() {
    // Forty-eight times the variance for eight observations is 2448; any
    // larger tie correction makes the variance non-positive.
    assert!(SignedRank::new(8, 0, 2448).is_err());
    assert!(SignedRank::approximate(8, 2448).is_err());
    assert!(SignedRank::approximate(8, 2447).is_ok());
}
