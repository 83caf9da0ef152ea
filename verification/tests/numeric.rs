//! End-to-end numerical tests: the library builds the KKT structures, and a
//! Newton iteration over them solves for the maximum-entropy distribution.

use std::collections::HashMap;

use nalgebra::{DMatrix, DVector};

use alchemy::alchemy::{EntropyOptimizer, JacCoeff, VariableType};
use alchemy::alchemy::{jacobian_coeff, marginal_indices, partner_of};
use alchemy::solver::{EntropyConstraint, VarAndValue};

const MULT: f64 = 1.0;

fn single(var: usize, value: usize) -> EntropyConstraint {
    EntropyConstraint::SingleNeq(VarAndValue { var, value })
}

fn residual(u: &[VariableType], x: &DVector<f64>) -> DVector<f64> {
    let mut r = DVector::from_element(x.len(), 0.0);
    for (i, nd) in u.iter().enumerate() {
        match nd {
            VariableType::BaseVariable { lagrangians, neg_lags, .. } => {
                let prob_part = MULT * (x[i].ln() + 1.0);
                let lag_sum: f64 = lagrangians.iter().map(|&j| x[j]).sum();
                let neg_sum: f64 = neg_lags.iter().map(|&j| x[j]).sum();
                r[i] = prob_part + lag_sum - neg_sum;
            }
            VariableType::Lagrangian(members) => {
                let sum: f64 = members.iter().map(|&j| x[j]).sum();
                r[i] = sum - 1.0;
            }
            VariableType::EquivalentSums(pos, neg) => {
                let sum: f64 = pos.iter().map(|&j| x[j]).sum();
                let minus: f64 = neg.iter().map(|&j| x[j]).sum();
                r[i] = sum - minus;
            }
        }
    }
    r
}

fn jacobian(u: &Vec<VariableType>, x: &DVector<f64>) -> DMatrix<f64> {
    DMatrix::from_fn(x.len(), x.len(), |row, col| match jacobian_coeff(u, row, col) {
        JacCoeff::Zero => 0.0,
        JacCoeff::One => 1.0,
        JacCoeff::NegOne => -1.0,
        JacCoeff::RecipDiag => MULT / x[row],
    })
}

fn solve_iter(a: DMatrix<f64>, b: &DVector<f64>) -> Option<DVector<f64>> {
    let mut regularized = a.clone();
    for col in 0..a.ncols() {
        for row in 0..a.nrows() {
            regularized[(row, col)] += 1e-3;
        }
    }
    if let Some(res) = regularized.lu().solve(b) {
        Some(res)
    } else {
        a.svd(true, true).solve(b, 1e-3).ok()
    }
}

/// Plain Newton iteration from the fixed starting point `0.5`, stopping
/// once the residual norm falls below `tol`; `None` past `max_iter` steps.
fn newton(u: &Vec<VariableType>, tol: f64, max_iter: usize) -> Option<DVector<f64>> {
    let rate = 1.0;
    let mut x = DVector::from_element(u.len(), 0.5);
    for _ in 0..max_iter {
        let r = residual(u, &x);
        if r.norm() < tol {
            return Some(x);
        }
        let j = jacobian(u, &x);
        let step = solve_iter(j, &r)?;
        x -= rate * step;
    }
    None
}

/// The full optimization: graph construction and uniform handling by the
/// library, floats by the caller. Returns the per-`(variable, value)`
/// marginal table.
fn optimize(varc: usize, k: usize, contras: Vec<EntropyConstraint>, tol: f64) -> HashMap<
    (usize, usize),
    f64,
> {
    let opt = EntropyOptimizer { varc, k, contras };
    let u = opt.build_unknowns().expect("constraint set should be feasible");
    let joints = opt.required_joints();
    let solution = if joints.is_empty() {
        None
    } else {
        Some(newton(&u, tol, 500).expect("Newton iteration should converge"))
    };
    let mut distribution = HashMap::new();
    for n in 0..varc {
        match partner_of(&joints, n) {
            None => {
                let values = opt.free_values(n);
                assert!(!values.is_empty(), "every value of an unpaired variable excluded");
                let prob = 1.0 / (values.len() as f64);
                for v in values {
                    distribution.insert((n, v), prob);
                }
            }
            Some(other) => {
                let x = solution.as_ref().expect("paired variables need the solved vector");
                for v in 0..k {
                    let indices = marginal_indices(&u, VarAndValue { var: n, value: v }, other);
                    let prob: f64 = indices.iter().map(|&i| x[i]).sum();
                    distribution.insert((n, v), prob);
                }
            }
        }
    }
    distribution
}

fn var_prob(dist: &HashMap<(usize, usize), f64>, n: usize, v: usize) -> f64 {
    *dist.get(&(n, v)).unwrap_or(&0.0)
}

fn entropy(dist: &HashMap<(usize, usize), f64>) -> f64 {
    let summ: f64 = dist.values().filter(|&&p| p > 0.0).map(|p| p * p.log2()).sum();
    -1.0 * summ
}

#[test]
fn constraint_free_problem_is_uniform() {
    let varc = 3;
    let k = 4;
    let dist = optimize(varc, k, vec![], 1e-2);
    for n in 0..varc {
        for v in 0..k {
            assert!((var_prob(&dist, n, v) - 0.25).abs() < 1e-12);
        }
    }
    let expected = (varc as f64) * (k as f64).log2();
    assert!((entropy(&dist) - expected).abs() < 1e-9);
}

#[test]
fn marginals_sum_to_one() {
    let dist = optimize(
        3,
        5,
        vec![
            EntropyConstraint::DoubleNeq(0, 1),
            EntropyConstraint::DoubleNeq(1, 2),
            single(0, 2),
        ],
        1e-9,
    );
    for n in 0..3 {
        let total: f64 = (0..5).map(|v| var_prob(&dist, n, v)).sum();
        assert!((total - 1.0).abs() < 1e-6, "variable {n} sums to {total}");
    }
}

#[test]
fn entropy_is_nonnegative_and_zero_only_for_point_masses() {
    // Exclusions leaving a single value per variable force a point mass.
    let dist = optimize(2, 2, vec![single(0, 1), single(1, 0)], 1e-2);
    assert!((var_prob(&dist, 0, 0) - 1.0).abs() < 1e-12);
    assert!((var_prob(&dist, 1, 1) - 1.0).abs() < 1e-12);
    assert_eq!(entropy(&dist), 0.0);
    // Any spread distribution has strictly positive entropy.
    let spread = optimize(1, 3, vec![], 1e-2);
    assert!(entropy(&spread) > 0.0);
}

#[test]
fn unary_exclusion_zeroes_the_value_and_renormalizes() {
    let base = optimize(2, 3, vec![EntropyConstraint::DoubleNeq(0, 1)], 1e-9);
    assert!(var_prob(&base, 0, 2) > 0.0);
    let dist = optimize(
        2,
        3,
        vec![EntropyConstraint::DoubleNeq(0, 1), single(0, 2)],
        1e-9,
    );
    assert_eq!(var_prob(&dist, 0, 2), 0.0);
    let total: f64 = (0..3).map(|v| var_prob(&dist, 0, v)).sum();
    assert!((total - 1.0).abs() < 1e-6);
}

#[test]
fn pairwise_exclusion_carries_no_equal_value_mass() {
    let opt = EntropyOptimizer {
        varc: 2,
        k: 2,
        contras: vec![EntropyConstraint::DoubleNeq(0, 1)],
    };
    let u = opt.build_unknowns().unwrap();
    let x = newton(&u, 1e-9, 500).unwrap();
    // Reconstruct the joint over the pair from the primal nodes: mass on
    // equal values must be exactly zero because no such node exists.
    let mut equal_mass = 0.0;
    let mut unequal_mass = 0.0;
    for (i, nd) in u.iter().enumerate() {
        if let VariableType::BaseVariable { var1, var2, .. } = nd {
            if var1.value == var2.value {
                equal_mass += x[i];
            } else {
                unequal_mass += x[i];
            }
        }
    }
    assert_eq!(equal_mass, 0.0);
    assert!((unequal_mass - 1.0).abs() < 1e-6);
}

#[test]
fn optimize_is_deterministic() {
    let contras = vec![
        EntropyConstraint::DoubleNeq(0, 1),
        EntropyConstraint::DoubleNeq(1, 2),
        single(1, 0),
    ];
    let once = optimize(3, 4, contras.clone(), 1e-2);
    let twice = optimize(3, 4, contras, 1e-2);
    assert_eq!(once.len(), twice.len());
    for (key, p) in &once {
        let q = twice.get(key).expect("same keys on both runs");
        assert!(p.to_bits() == q.to_bits(), "probability for {key:?} differs");
    }
}

#[test]
fn reference_scenario_converges_with_exclusions_respected() {
    let contras = vec![
        single(0, 4),
        single(1, 1),
        EntropyConstraint::DoubleNeq(0, 1),
        EntropyConstraint::DoubleNeq(1, 2),
    ];
    let opt = EntropyOptimizer { varc: 3, k: 25, contras };
    let u = opt.build_unknowns().unwrap();
    let joints = opt.required_joints();
    let x = newton(&u, 1e-2, 200).expect("bounded iteration count");
    assert!(residual(&u, &x).norm() < 1e-2);
    // The excluded values carry no mass at all: no primal node exists for
    // them, through any partner.
    let zero_a = marginal_indices(
        &u,
        VarAndValue { var: 0, value: 4 },
        partner_of(&joints, 0).unwrap(),
    );
    assert!(zero_a.is_empty());
    let zero_b = marginal_indices(
        &u,
        VarAndValue { var: 1, value: 1 },
        partner_of(&joints, 1).unwrap(),
    );
    assert!(zero_b.is_empty());
}

#[test]
fn two_coins_that_must_differ_split_evenly() {
    let dist = optimize(2, 2, vec![EntropyConstraint::DoubleNeq(0, 1)], 1e-9);
    for n in 0..2 {
        for v in 0..2 {
            assert!((var_prob(&dist, n, v) - 0.5).abs() < 1e-6);
        }
    }
    let opt = EntropyOptimizer {
        varc: 2,
        k: 2,
        contras: vec![EntropyConstraint::DoubleNeq(0, 1)],
    };
    let u = opt.build_unknowns().unwrap();
    let x = newton(&u, 1e-9, 500).unwrap();
    // The joint mass splits evenly over the two unequal outcomes.
    for (i, nd) in u.iter().enumerate() {
        if let VariableType::BaseVariable { .. } = nd {
            assert!((x[i] - 0.5).abs() < 1e-6);
        }
    }
}
