//! Tests of the constraint model, the unknown-vector graph and the
//! decomposition, on the integer level.

use alchemy::alchemy::{EntropyError, EntropyOptimizer, JacCoeff, VariableType};
use alchemy::alchemy::{jacobian_coeff, marginal_indices, partner_of};
use alchemy::solver::{EntropyConstraint, EntropySubProblem, VarAndValue};
use alchemy::solver::EntropyOptimizer as SepOptimizer;

fn single(var: usize, value: usize) -> EntropyConstraint {
    EntropyConstraint::SingleNeq(VarAndValue { var, value })
}

fn base_parts(nd: &VariableType) -> (VarAndValue, VarAndValue, Vec<usize>, Vec<usize>) {
    match nd {
        VariableType::BaseVariable { var1, var2, lagrangians, neg_lags } => {
            (*var1, *var2, lagrangians.clone(), neg_lags.clone())
        }
        _ => panic!("expected a primal node"),
    }
}

#[test]
fn required_joints_deduplicates_unordered_pairs() {
    let opt = EntropyOptimizer {
        varc: 3,
        k: 2,
        contras: vec![
            EntropyConstraint::DoubleNeq(0, 1),
            EntropyConstraint::DoubleNeq(1, 0),
            single(2, 0),
            EntropyConstraint::DoubleNeq(0, 1),
            EntropyConstraint::DoubleNeq(1, 2),
        ],
    };
    assert_eq!(opt.required_joints(), vec![(0, 1), (1, 2)]);
}

#[test]
fn is_constrained_matches_both_constraint_kinds() {
    let opt = EntropyOptimizer {
        varc: 3,
        k: 4,
        contras: vec![EntropyConstraint::DoubleNeq(0, 1), single(2, 3)],
    };
    // Equal values on the excluded pair, in either orientation.
    assert!(opt.is_constrained(0, 2, 1, 2));
    assert!(opt.is_constrained(1, 2, 0, 2));
    assert!(!opt.is_constrained(0, 2, 1, 3));
    // Unary exclusion hits whichever half mentions it.
    assert!(opt.is_constrained(2, 3, 0, 0));
    assert!(opt.is_constrained(0, 0, 2, 3));
    assert!(!opt.is_constrained(2, 2, 0, 0));
    // An unrelated pair with equal values is fine.
    assert!(!opt.is_constrained(1, 2, 2, 2));
}

#[test]
fn validate_rejects_out_of_range_constraints() {
    let bad_pair = EntropyOptimizer {
        varc: 2,
        k: 2,
        contras: vec![EntropyConstraint::DoubleNeq(0, 0)],
    };
    assert!(!bad_pair.validate());
    assert_eq!(bad_pair.build_unknowns().unwrap_err(), EntropyError::InvalidInput);

    let bad_value = EntropyOptimizer { varc: 2, k: 2, contras: vec![single(0, 2)] };
    assert!(!bad_value.validate());
    assert_eq!(bad_value.build_unknowns().unwrap_err(), EntropyError::InvalidInput);

    let good = EntropyOptimizer {
        varc: 2,
        k: 2,
        contras: vec![EntropyConstraint::DoubleNeq(0, 1), single(1, 1)],
    };
    assert!(good.validate());
}

#[test]
fn infeasible_pair_is_detected() {
    // With one value only, a pairwise exclusion leaves no joint outcome.
    let opt = EntropyOptimizer {
        varc: 2,
        k: 1,
        contras: vec![EntropyConstraint::DoubleNeq(0, 1)],
    };
    assert_eq!(opt.build_unknowns().unwrap_err(), EntropyError::Infeasible);
}

#[test]
fn free_values_drop_exactly_the_excluded_ones() {
    let opt = EntropyOptimizer {
        varc: 2,
        k: 5,
        contras: vec![single(0, 1), single(0, 3), single(1, 0)],
    };
    assert_eq!(opt.free_values(0), vec![0, 2, 4]);
    assert_eq!(opt.free_values(1), vec![1, 2, 3, 4]);
}

#[test]
fn two_variable_graph_has_expected_shape() {
    let opt = EntropyOptimizer {
        varc: 2,
        k: 2,
        contras: vec![EntropyConstraint::DoubleNeq(0, 1)],
    };
    let u = opt.build_unknowns().unwrap();
    assert_eq!(u.len(), 3);
    let (v1, v2, lags, negs) = base_parts(&u[0]);
    assert_eq!((v1.var, v1.value, v2.var, v2.value), (0, 0, 1, 1));
    assert_eq!(lags, vec![2]);
    assert!(negs.is_empty());
    let (w1, w2, lags1, _) = base_parts(&u[1]);
    assert_eq!((w1.var, w1.value, w2.var, w2.value), (0, 1, 1, 0));
    assert_eq!(lags1, vec![2]);
    match &u[2] {
        VariableType::Lagrangian(members) => assert_eq!(members, &vec![0, 1]),
        _ => panic!("expected the normalization multiplier"),
    }
}

#[test]
fn jacobian_coefficients_mirror_the_links() {
    let opt = EntropyOptimizer {
        varc: 2,
        k: 2,
        contras: vec![EntropyConstraint::DoubleNeq(0, 1)],
    };
    let u = opt.build_unknowns().unwrap();
    assert_eq!(jacobian_coeff(&u, 0, 0), JacCoeff::RecipDiag);
    assert_eq!(jacobian_coeff(&u, 1, 1), JacCoeff::RecipDiag);
    assert_eq!(jacobian_coeff(&u, 0, 1), JacCoeff::Zero);
    assert_eq!(jacobian_coeff(&u, 0, 2), JacCoeff::One);
    assert_eq!(jacobian_coeff(&u, 2, 0), JacCoeff::One);
    assert_eq!(jacobian_coeff(&u, 2, 1), JacCoeff::One);
    assert_eq!(jacobian_coeff(&u, 2, 2), JacCoeff::Zero);
    // Full symmetry of the Jacobian structure.
    for row in 0..u.len() {
        for col in 0..u.len() {
            assert_eq!(jacobian_coeff(&u, row, col), jacobian_coeff(&u, col, row));
        }
    }
}

#[test]
fn chained_pairs_produce_consistency_multipliers() {
    // Variable 1 is paired with both 0 and 2, so its marginal is tracked
    // through two partner groups that must agree.
    let opt = EntropyOptimizer {
        varc: 3,
        k: 2,
        contras: vec![
            EntropyConstraint::DoubleNeq(0, 1),
            EntropyConstraint::DoubleNeq(1, 2),
        ],
    };
    let u = opt.build_unknowns().unwrap();
    // 2 outcomes per pair, 2 normalization nodes, and one consistency node
    // per ordered pair of groups for each of variable 1's two values.
    assert_eq!(u.len(), 2 + 2 + 2 + 4);
    let mut equiv_count = 0;
    for nd in u.iter().skip(6) {
        match nd {
            VariableType::EquivalentSums(pos, neg) => {
                assert!(!pos.is_empty() && !neg.is_empty());
                equiv_count += 1;
            }
            _ => panic!("expected consistency multipliers after the duals"),
        }
    }
    assert_eq!(equiv_count, 4);
    // Each primal node of the middle variable carries a consistency link.
    for i in 0..4 {
        let (_, _, lags, negs) = base_parts(&u[i]);
        assert!(lags.len() + negs.len() > 1);
    }
    // The first consistency node equates the mass of `(1, 0)` seen through
    // partner 0 (primal node 1) with the one seen through partner 2
    // (primal node 2), and the Jacobian carries the matching signs, in
    // both orientations.
    match &u[6] {
        VariableType::EquivalentSums(pos, neg) => {
            assert_eq!((pos, neg), (&vec![1], &vec![2]));
        }
        _ => panic!("expected a consistency multiplier"),
    }
    assert_eq!(jacobian_coeff(&u, 1, 6), JacCoeff::One);
    assert_eq!(jacobian_coeff(&u, 6, 1), JacCoeff::One);
    assert_eq!(jacobian_coeff(&u, 2, 6), JacCoeff::NegOne);
    assert_eq!(jacobian_coeff(&u, 6, 2), JacCoeff::NegOne);
    assert_eq!(jacobian_coeff(&u, 0, 6), JacCoeff::Zero);
    assert_eq!(jacobian_coeff(&u, 6, 6), JacCoeff::Zero);
    assert_eq!(jacobian_coeff(&u, 6, 4), JacCoeff::Zero);
}

#[test]
fn marginal_indices_select_matching_primal_nodes() {
    let opt = EntropyOptimizer {
        varc: 2,
        k: 3,
        contras: vec![EntropyConstraint::DoubleNeq(0, 1)],
    };
    let u = opt.build_unknowns().unwrap();
    // Outcomes in lexicographic order: (0,1),(0,2),(1,0),(1,2),(2,0),(2,1).
    let m = marginal_indices(&u, VarAndValue { var: 0, value: 0 }, 1);
    assert_eq!(m, vec![0, 1]);
    let m = marginal_indices(&u, VarAndValue { var: 1, value: 0 }, 0);
    assert_eq!(m, vec![2, 4]);
    let joints = opt.required_joints();
    assert_eq!(partner_of(&joints, 0), Some(1));
    assert_eq!(partner_of(&joints, 1), Some(0));
    assert_eq!(partner_of(&joints, 2), None);
}

#[test]
fn unary_exclusion_leaves_no_node_for_the_pair() {
    let opt = EntropyOptimizer {
        varc: 2,
        k: 3,
        contras: vec![EntropyConstraint::DoubleNeq(0, 1), single(0, 2)],
    };
    let u = opt.build_unknowns().unwrap();
    let m = marginal_indices(&u, VarAndValue { var: 0, value: 2 }, 1);
    assert!(m.is_empty());
    assert!(!opt.free_values(0).contains(&2));
}

#[test]
fn fully_excluded_variable_has_no_free_values() {
    // Every value of variable 0 is excluded: the graph still builds (no
    // required pair exists), but the free-value list is empty, which the
    // caller must treat as an infeasible marginal.
    let opt = EntropyOptimizer { varc: 1, k: 2, contras: vec![single(0, 0), single(0, 1)] };
    assert!(opt.build_unknowns().unwrap().is_empty());
    assert!(opt.free_values(0).is_empty());
}

#[test]
fn enumerate_walks_the_grid_in_lexicographic_order() {
    let mut it = VarAndValue::enumerate(1, 3, 2);
    let mut seen = Vec::new();
    while let Some(vv) = it.next() {
        seen.push((vv.var, vv.value));
    }
    assert_eq!(seen, vec![(1, 0), (1, 1), (2, 0), (2, 1)]);
    let mut empty = VarAndValue::enumerate(2, 2, 3);
    assert!(empty.next().is_none());
}

fn sub_as_tuple(sub: &EntropySubProblem) -> (Vec<usize>, Vec<Vec<usize>>, Vec<EntropyConstraint>) {
    (sub.var_map.clone(), sub.k_map.clone(), sub.contras.clone())
}

#[test]
fn separate_splits_into_connected_components() {
    let opt = SepOptimizer {
        varc: 5,
        k: 3,
        contras: vec![
            EntropyConstraint::DoubleNeq(0, 3),
            single(1, 2),
            EntropyConstraint::DoubleNeq(3, 4),
        ],
    };
    assert!(opt.constraints_valid());
    let subs = opt.separate();
    assert_eq!(subs.len(), 3);
    // Component of 0: {0, 3, 4}, grown over the two pairwise edges.
    assert_eq!(subs[0].var_map, vec![0, 3, 4]);
    assert_eq!(subs[0].varc(), 3);
    assert_eq!(
        subs[0].contras,
        vec![
            EntropyConstraint::DoubleNeq(0, 1),
            EntropyConstraint::DoubleNeq(1, 2)
        ]
    );
    // No value is mentioned by its constraints: one collapsed bucket.
    assert_eq!(subs[0].k(), 1);
    assert_eq!(subs[0].kcount(0), 3);
    assert_eq!(subs[0].k_map, vec![vec![0, 1, 2]]);
    // Component of 1: alone, with its unary constraint remapped to the
    // first local value.
    assert_eq!(subs[1].var_map, vec![1]);
    assert_eq!(
        subs[1].contras,
        vec![single(0, 0)]
    );
    assert_eq!(subs[1].k_map, vec![vec![2], vec![0, 1]]);
    assert_eq!(subs[1].k(), 2);
    assert_eq!(subs[1].kcount(0), 1);
    assert_eq!(subs[1].kcount(1), 2);
    // Component of 2: alone and unconstrained.
    assert_eq!(subs[2].var_map, vec![2]);
    assert!(subs[2].contras.is_empty());
    assert_eq!(subs[2].k_map, vec![vec![0, 1, 2]]);
}

#[test]
fn separate_is_deterministic() {
    let opt = SepOptimizer {
        varc: 6,
        k: 4,
        contras: vec![
            EntropyConstraint::DoubleNeq(4, 2),
            EntropyConstraint::DoubleNeq(2, 0),
            single(5, 1),
            single(2, 3),
        ],
    };
    let once: Vec<_> = opt.separate().iter().map(sub_as_tuple).collect();
    let twice: Vec<_> = opt.separate().iter().map(sub_as_tuple).collect();
    assert_eq!(once, twice);
}
