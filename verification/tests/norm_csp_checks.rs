use cspuz::norm_csp::test_utils::{is_norm_csp_satisfied, Assignment};
use cspuz::norm_csp::{BoolLit, ExtraConstraint, NormCSP};

fn path_with_gap() -> (NormCSP, Vec<cspuz::norm_csp::BoolVar>) {
    // a path 0 - 1 - 2 whose vertices are active when their variable is true
    let mut norm = NormCSP::new();
    let vs = vec![norm.new_bool_var(), norm.new_bool_var(), norm.new_bool_var()];
    norm.add_extra_constraint(ExtraConstraint::ActiveVerticesConnected(
        vs.iter().map(|&v| BoolLit::new(v, false)).collect(),
        vec![(0, 1), (1, 2)],
    ));
    (norm, vs)
}

fn assign(vs: &[cspuz::norm_csp::BoolVar], vals: &[bool]) -> Assignment {
    let mut a = Assignment::new();
    for (&v, &b) in vs.iter().zip(vals) {
        a.set_bool(v, b);
    }
    a
}

#[test]
fn test_connectivity_checked_exactly() {
    let (norm, vs) = path_with_gap();
    assert!(is_norm_csp_satisfied(&assign(&vs, &[true, true, true]), &norm));
    assert!(is_norm_csp_satisfied(&assign(&vs, &[true, true, false]), &norm));
    assert!(is_norm_csp_satisfied(&assign(&vs, &[false, false, true]), &norm));
    assert!(is_norm_csp_satisfied(&assign(&vs, &[false, false, false]), &norm));
    // the active ends are separated by the inactive middle vertex
    assert!(!is_norm_csp_satisfied(&assign(&vs, &[true, false, true]), &norm));
}

#[test]
fn test_connectivity_negated_literals() {
    let mut norm = NormCSP::new();
    let vs = vec![norm.new_bool_var(), norm.new_bool_var(), norm.new_bool_var()];
    norm.add_extra_constraint(ExtraConstraint::ActiveVerticesConnected(
        vs.iter().map(|&v| BoolLit::new(v, true)).collect(),
        vec![(0, 1), (1, 2)],
    ));
    // vertex k is active when its variable is false
    assert!(!is_norm_csp_satisfied(&assign(&vs, &[false, true, false]), &norm));
    assert!(is_norm_csp_satisfied(&assign(&vs, &[false, false, true]), &norm));
}
