use cspuz::norm_csp::{BoolLit, BoolVar, Constraint, NormCSP};
use cspuz::normalizer::norm::normalize_disjunction;
use cspuz::normalizer::NormalizeMap;

fn clause(lits: &[(BoolVar, bool)]) -> Constraint {
    let mut c = Constraint::new();
    for &(v, neg) in lits {
        c.bool_lit.push(BoolLit::new(v, neg));
    }
    c
}

fn lits_of(c: &Constraint) -> Vec<(usize, bool)> {
    c.bool_lit.iter().map(|l| (l.var.0, l.negated)).collect()
}

#[test]
fn test_disjunction_of_single_clauses_merges_them() {
    let mut norm = NormCSP::new();
    let a = norm.new_bool_var();
    let b = norm.new_bool_var();
    let map = NormalizeMap::new();
    let groups = vec![vec![clause(&[(a, false)])], vec![clause(&[(b, false)])]];
    let r = normalize_disjunction(&mut norm, &map, groups).unwrap();
    assert_eq!(r.len(), 1);
    assert_eq!(lits_of(&r[0]), vec![(0, false), (1, false)]);
    assert_eq!(norm.vars.num_bool_var, 2);
}

#[test]
fn test_disjunction_of_two_groups_uses_one_selector() {
    let mut norm = NormCSP::new();
    let a = norm.new_bool_var();
    let b = norm.new_bool_var();
    let map = NormalizeMap::new();
    let groups = vec![
        vec![clause(&[(a, false)]), clause(&[(b, false)])],
        vec![clause(&[(a, true)]), clause(&[(b, true)])],
    ];
    let r = normalize_disjunction(&mut norm, &map, groups).unwrap();
    // the first group's clauses get the negated selector, the second's the selector
    assert_eq!(norm.vars.num_bool_var, 3);
    assert_eq!(r.len(), 4);
    assert_eq!(lits_of(&r[0]), vec![(0, false), (2, true)]);
    assert_eq!(lits_of(&r[1]), vec![(1, false), (2, true)]);
    assert_eq!(lits_of(&r[2]), vec![(0, true), (2, false)]);
    assert_eq!(lits_of(&r[3]), vec![(1, true), (2, false)]);
}

#[test]
fn test_disjunction_with_empty_group_is_true() {
    let mut norm = NormCSP::new();
    let a = norm.new_bool_var();
    let map = NormalizeMap::new();
    let groups = vec![vec![clause(&[(a, false)]), clause(&[(a, true)])], vec![]];
    let r = normalize_disjunction(&mut norm, &map, groups).unwrap();
    assert!(r.is_empty());
}
