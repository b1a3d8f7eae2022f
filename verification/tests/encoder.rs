use cspuz::arithmetic::CmpOp;
use cspuz::config::Config;
use cspuz::domain::Domain;
use cspuz::encoder::decompose::decompose_linear_lit;
use cspuz::encoder::direct::{
    encode_linear_eq_direct, encode_linear_ne_direct, encode_simple_linear_direct_encoding,
    LinearInfoForDirectEncoding,
};
use cspuz::encoder::mixed::{encode_linear_ge_mixed, encode_linear_ge_mixed_from_info, LinearInfo};
use cspuz::encoder::native::{add_clause_set, encode_linear_ge_order_encoding_native};
use cspuz::encoder::order::LinearInfoForOrderEncoding;
use cspuz::encoder::{is_unsatisfiable_linear, ClauseSet, EncodeMap, Encoding};
use cspuz::norm_csp::linear::{LinearLit, LinearSum};
use cspuz::norm_csp::{BoolLit, BoolVar, IntVar, IntVarRepresentation, NormCSPVars};
use cspuz::sat::{Lit, OrderEncodingLinearMode, SAT};
use std::collections::BTreeSet;

struct EncoderTester {
    norm_vars: NormCSPVars,
    sat: SAT,
    map: EncodeMap,
    config: Config,
    lits: Vec<LinearLit>,
}

impl EncoderTester {
    fn new() -> EncoderTester {
        EncoderTester {
            norm_vars: NormCSPVars::new(),
            sat: SAT::new(),
            map: EncodeMap::new(),
            config: Config::default(),
            lits: vec![],
        }
    }

    fn add_clause(&mut self, clause: &[Lit]) {
        self.sat.add_clause(clause);
    }

    fn add_clause_set(&mut self, clause_set: ClauseSet) {
        add_clause_set(&mut self.sat, &clause_set);
    }

    fn add_bool_var(&mut self) -> BoolVar {
        self.norm_vars.new_bool_var()
    }

    fn encode_int_var(&mut self, v: IntVar, is_direct_encoding: bool) {
        if is_direct_encoding {
            self.map
                .convert_int_var_direct_encoding(&self.norm_vars, &mut self.sat, v);
        } else {
            self.map
                .convert_int_var_order_encoding(&self.norm_vars, &mut self.sat, v);
        }
    }

    fn add_int_var(&mut self, domain: Domain, is_direct_encoding: bool) -> IntVar {
        let v = self
            .norm_vars
            .new_int_var(IntVarRepresentation::Domain(domain));
        self.encode_int_var(v, is_direct_encoding);
        v
    }

    fn add_int_var_binary(
        &mut self,
        cond: BoolLit,
        v_false: i32,
        v_true: i32,
        is_direct_encoding: bool,
    ) -> IntVar {
        let v = self.norm_vars.new_int_var(IntVarRepresentation::Binary {
            cond,
            v_false,
            v_true,
        });
        self.encode_int_var(v, is_direct_encoding);
        v
    }

    fn add_constraint_linear_lit(&mut self, lit: LinearLit) {
        self.lits.push(lit);
    }

    fn related_vars(lits: &[LinearLit]) -> Vec<IntVar> {
        let mut set = BTreeSet::new();
        for lit in lits {
            for (v, _) in lit.sum.term.iter() {
                set.insert(v.id());
            }
        }
        set.into_iter().map(IntVar::new).collect()
    }

    fn enumerate_valid_assignments_by_sat(&mut self, int_vars: &[IntVar]) -> Vec<Vec<i32>> {
        let mut sat_vars = BTreeSet::new();
        for var in int_vars {
            let enc: &Option<Encoding> = self.map.int_encoding(*var);
            for lit in enc.as_ref().unwrap().repr_literals() {
                sat_vars.insert(lit.var().0);
            }
        }
        let mut ret = vec![];
        while let Some(model) = self.sat.solve() {
            let values = int_vars
                .iter()
                .map(|&v| self.map.get_int_value(&model, v).unwrap())
                .collect::<Vec<_>>();
            ret.push(values);
            let refutation = sat_vars
                .iter()
                .map(|&v| {
                    let var = cspuz::sat::Var(v);
                    var.as_lit(model.assignment(var))
                })
                .collect::<Vec<_>>();
            self.sat.add_clause(&refutation);
        }
        ret
    }

    fn enumerate_valid_assignments_by_literals(
        &self,
        lits: &[LinearLit],
        int_vars: &[IntVar],
    ) -> Vec<Vec<i32>> {
        let domains = int_vars
            .iter()
            .map(|&v| self.norm_vars.int_var(v).enumerate())
            .collect::<Vec<_>>();
        product_multi(&domains)
            .into_iter()
            .filter(|assignment| {
                lits.iter().all(|lit| {
                    let mut value = lit.sum.constant as i64;
                    for (var, coef) in lit.sum.term.iter() {
                        let idx = int_vars.iter().position(|v| v == var).unwrap();
                        value += assignment[idx] as i64 * *coef as i64;
                    }
                    lit.op.compare_wide(value, 0)
                })
            })
            .collect()
    }

    fn run_check(mut self, lits: &[LinearLit]) {
        let related_vars = Self::related_vars(lits);
        let mut by_literals = self.enumerate_valid_assignments_by_literals(lits, &related_vars);
        by_literals.sort();
        let mut by_sat = self.enumerate_valid_assignments_by_sat(&related_vars);
        by_sat.sort();
        assert_eq!(by_literals, by_sat);
    }

    fn run_check_recorded(mut self) {
        let lits = std::mem::take(&mut self.lits);
        self.run_check(&lits);
    }
}

fn product_multi(domains: &[Vec<i32>]) -> Vec<Vec<i32>> {
    let mut ret: Vec<Vec<i32>> = vec![vec![]];
    for d in domains {
        let mut next = vec![];
        for prefix in &ret {
            for &v in d {
                let mut p = prefix.clone();
                p.push(v);
                next.push(p);
            }
        }
        ret = next;
    }
    ret
}

fn linear_sum(terms: &[(IntVar, i32)], constant: i32) -> LinearSum {
    let mut ret = LinearSum::constant(constant);
    for &(var, coef) in terms {
        ret.add_coef(var, coef);
    }
    ret
}

fn direct_info(map: &EncodeMap, var: IntVar, coef: i32) -> LinearInfoForDirectEncoding<'_> {
    match map.int_encoding(var) {
        Some(Encoding::Direct(e)) => LinearInfoForDirectEncoding::new(coef, e),
        _ => panic!("not direct-encoded"),
    }
}

#[test]
fn test_encode_simple_linear_direct_encoding() {
    for op in [
        CmpOp::Eq,
        CmpOp::Ne,
        CmpOp::Le,
        CmpOp::Lt,
        CmpOp::Ge,
        CmpOp::Gt,
    ] {
        let mut tester = EncoderTester::new();

        let x = tester.add_int_var(Domain::range(-2, 5), true);
        let lits = [LinearLit::new(linear_sum(&[(x, 1)], 1), op)];
        {
            let info = direct_info(&tester.map, x, 1);
            let clause = encode_simple_linear_direct_encoding(&info, op, lits[0].sum.constant);
            if let Some(clause) = clause {
                tester.add_clause(&clause);
            }
        }
        tester.run_check(&lits);
    }
}

#[test]
fn test_encode_linear_eq_direct_two_terms() {
    let mut tester = EncoderTester::new();

    let x = tester.add_int_var(Domain::range(0, 5), true);
    let y = tester.add_int_var(Domain::range(2, 6), true);

    let lits = [LinearLit::new(linear_sum(&[(x, 2), (y, -1)], 1), CmpOp::Eq)];
    {
        let clause_set = encode_linear_eq_direct(&tester.map, &tester.sat, &lits[0].sum);
        tester.add_clause_set(clause_set);
    }
    tester.run_check(&lits);
}

#[test]
fn test_encode_linear_eq_direct() {
    let mut tester = EncoderTester::new();

    let x = tester.add_int_var(Domain::range(0, 5), true);
    let y = tester.add_int_var(Domain::range(2, 6), true);
    let z = tester.add_int_var(Domain::range(-1, 4), true);

    let lits = [LinearLit::new(
        linear_sum(&[(x, 1), (y, -1), (z, 2)], -1),
        CmpOp::Eq,
    )];
    {
        let clause_set = encode_linear_eq_direct(&tester.map, &tester.sat, &lits[0].sum);
        tester.add_clause_set(clause_set);
    }
    tester.run_check(&lits);
}

#[test]
fn test_encode_linear_ne_direct() {
    let mut tester = EncoderTester::new();

    let x = tester.add_int_var(Domain::range(0, 5), true);
    let y = tester.add_int_var(Domain::range(2, 6), true);
    let z = tester.add_int_var(Domain::range(-1, 4), true);

    let lits = [LinearLit::new(
        linear_sum(&[(x, 1), (y, -1), (z, 2)], -1),
        CmpOp::Ne,
    )];
    {
        let clause_set = encode_linear_ne_direct(&tester.map, &tester.sat, &lits[0].sum);
        tester.add_clause_set(clause_set);
    }
    tester.run_check(&lits);
}

#[test]
fn test_encode_linear_ge_mixed() {
    for mask in 0..8 {
        let mut tester = EncoderTester::new();

        let x = tester.add_int_var(Domain::range(0, 5), (mask & 4) != 0);
        let y = tester.add_int_var(Domain::range(2, 6), (mask & 2) != 0);
        let z = tester.add_int_var(Domain::range(-1, 4), (mask & 1) != 0);

        let lit = LinearLit::new(linear_sum(&[(x, 3), (y, -4), (z, 2)], -1), CmpOp::Ge);
        {
            let clause_set = encode_linear_ge_mixed(&tester.map, &tester.sat, &lit.sum);
            tester.add_clause_set(clause_set);
        }

        tester.add_constraint_linear_lit(lit);

        tester.run_check_recorded();
    }
}

#[test]
fn test_encode_linear_ge_mixed_binary() {
    for mask in 0..8 {
        let mut tester = EncoderTester::new();

        let x = tester.add_bool_var();
        let a = tester.add_int_var(Domain::range(0, 5), (mask & 4) != 0);
        let b = tester.add_int_var(Domain::range(1, 6), (mask & 2) != 0);
        let c = tester.add_int_var_binary(BoolLit::new(x, true), 0, 2, (mask & 1) != 0);

        let lit = LinearLit::new(linear_sum(&[(a, 3), (b, -4), (c, 2)], -1), CmpOp::Ge);
        {
            let clause_set = encode_linear_ge_mixed(&tester.map, &tester.sat, &lit.sum);
            tester.add_clause_set(clause_set);
        }

        tester.add_constraint_linear_lit(lit);

        tester.run_check_recorded();
    }
}

fn canonical_clause_set(clauses: &ClauseSet) -> BTreeSet<Vec<Lit>> {
    let mut ret = BTreeSet::new();
    for i in 0..clauses.len() {
        let mut clause = clauses.get(i).to_vec();
        clause.sort_unstable();
        clause.dedup();
        ret.insert(clause);
    }
    ret
}

fn subsumes(lhs: &[Lit], rhs: &[Lit]) -> bool {
    lhs.iter().all(|lit| rhs.binary_search(lit).is_ok())
}

fn assert_erase_subsumed_clauses(erased: &ClauseSet, all: &ClauseSet, instance: &str) {
    let erased = canonical_clause_set(erased);
    let all = canonical_clause_set(all);

    assert!(
        erased.len() < all.len() && erased.is_subset(&all),
        "the erased clause set must be a proper subset: {instance}"
    );

    for removed in all.difference(&erased) {
        assert!(
            erased.iter().any(|clause| subsumes(clause, removed)),
            "removed clause is not subsumed by a retained clause: {instance}"
        );
    }
}

fn check_erase_subsumed_clauses(
    domains: &[Vec<i32>],
    coefs: &[i32],
    direct_encoding: &[bool],
    constant: i32,
) {
    assert_eq!(domains.len(), coefs.len());
    assert_eq!(domains.len(), direct_encoding.len());

    let mut tester = EncoderTester::new();
    let vars = domains
        .iter()
        .zip(direct_encoding.iter().copied())
        .map(|(domain, is_direct)| tester.add_int_var(Domain::enumerative(domain.clone()), is_direct))
        .collect::<Vec<_>>();
    let terms = vars
        .iter()
        .copied()
        .zip(coefs.iter().copied())
        .collect::<Vec<_>>();
    let sum = linear_sum(&terms, constant);

    let map = &tester.map;
    let info = sum
        .term
        .iter()
        .map(|&(var, coef)| match map.int_encoding(var) {
            Some(Encoding::Order(e)) => LinearInfo::Order(LinearInfoForOrderEncoding::new(coef, e)),
            Some(Encoding::Direct(e)) => LinearInfo::Direct(LinearInfoForDirectEncoding::new(coef, e)),
            None => panic!("not encoded"),
        })
        .collect::<Vec<_>>();

    let erased = encode_linear_ge_mixed_from_info(&info, sum.constant, true, &tester.sat);
    let all = encode_linear_ge_mixed_from_info(&info, sum.constant, false, &tester.sat);
    let instance = format!(
        "domains={domains:?}, coefs={coefs:?}, direct_encoding={direct_encoding:?}, constant={constant}"
    );
    assert_erase_subsumed_clauses(&erased, &all, &instance);
}

#[test]
fn test_encode_linear_ge_mixed_erase_subsumed_clauses() {
    let instances = [
        (
            vec![vec![0, 2], vec![0, 6], vec![0, 1, 2]],
            vec![1, 1, 1],
            vec![true, true, false],
            -5,
        ),
        (
            vec![vec![-2, 0], vec![-6, 0], vec![-2, -1, 0]],
            vec![-1, -1, -1],
            vec![true, true, false],
            -5,
        ),
        (
            vec![vec![0, 2], vec![-6, 0], vec![0, 1, 2]],
            vec![1, -1, 1],
            vec![true, true, false],
            -5,
        ),
        (
            vec![vec![0, 2], vec![0, 3], vec![0, 10], vec![0, 1, 2, 3]],
            vec![1, 1, 1, 1],
            vec![true, false, true, false],
            -10,
        ),
    ];

    for (domains, coefs, direct_encoding, constant) in instances {
        check_erase_subsumed_clauses(&domains, &coefs, &direct_encoding, constant);
    }
}

#[test]
fn test_encode_linear_ge_order_encoding_native() {
    for mode in [
        OrderEncodingLinearMode::Cpp,
        OrderEncodingLinearMode::Rust,
        OrderEncodingLinearMode::RustOptimized,
    ] {
        let mut tester = EncoderTester::new();
        tester.config.order_encoding_linear_mode = mode;

        let x = tester.add_int_var(Domain::range(0, 5), false);
        let y = tester.add_int_var(Domain::range(2, 6), false);
        let z = tester.add_int_var(Domain::range(-1, 4), false);

        let lit = LinearLit::new(linear_sum(&[(x, 3), (y, -4), (z, 2)], -1), CmpOp::Ge);
        encode_linear_ge_order_encoding_native(&tester.map, &mut tester.sat, &tester.config, &lit.sum);

        tester.add_constraint_linear_lit(lit);
        tester.run_check_recorded();
    }
}

#[test]
fn test_decompose_linear_lit() {
    for c in [-1, -3, 5] {
        for op in [CmpOp::Eq, CmpOp::Ne, CmpOp::Ge] {
            let mut tester = EncoderTester::new();

            let mut terms = vec![];
            for _ in 0..12 {
                let var = tester.add_int_var(Domain::range(0, 1), false);
                terms.push((var, 1));
            }

            let lit = LinearLit::new(linear_sum(&terms, c), op);
            let decomposed = decompose_linear_lit(
                &mut tester.norm_vars,
                &mut tester.sat,
                &mut tester.map,
                &tester.config,
                &lit,
            );

            let lit_vars = lit.sum.term.iter().map(|(v, _)| *v).collect::<Vec<_>>();
            let lit_domains = lit_vars
                .iter()
                .map(|&v| tester.norm_vars.int_var(v).enumerate())
                .collect::<Vec<_>>();

            let mut other_vars = vec![];
            if let Some(decomposed) = &decomposed {
                for lit in decomposed {
                    let vars = lit
                        .sum
                        .term
                        .iter()
                        .map(|(v, _)| *v)
                        .filter(|v| !lit_vars.contains(v))
                        .collect::<Vec<_>>();
                    other_vars.extend(vars);
                }
            }

            let is_unsat = is_unsatisfiable_linear(&tester.map, &lit);
            if !is_unsat {
                assert!(other_vars.len() > 0);
            }

            let other_vars_domains = other_vars
                .iter()
                .map(|&v| tester.norm_vars.int_var(v).enumerate())
                .collect::<Vec<_>>();

            let assignments = product_multi(&lit_domains);
            let other_assignments = product_multi(&other_vars_domains);

            let is_satisfiable = |lit: &LinearLit, assignment: &[i32], other_assignment: &[i32]| {
                let mut value = lit.sum.constant as i64;
                for (var, coef) in lit.sum.term.iter() {
                    if let Some(idx) = lit_vars.iter().position(|v| v == var) {
                        value += assignment[idx] as i64 * *coef as i64;
                    } else {
                        value += other_assignment[other_vars.iter().position(|v| v == var).unwrap()]
                            as i64
                            * *coef as i64;
                    }
                }
                lit.op.compare_wide(value, 0)
            };

            for a in &assignments {
                let is_sat = is_satisfiable(&lit, a, &[]);

                if decomposed.is_none() {
                    assert!(!is_sat);
                    continue;
                }

                let decomposed = decomposed.as_ref().unwrap();
                let mut is_sat_decomposed_any = false;
                for b in &other_assignments {
                    is_sat_decomposed_any |= decomposed.iter().all(|lit| is_satisfiable(lit, a, b));
                }

                assert_eq!(is_sat, is_sat_decomposed_any);
            }
        }
    }
}
