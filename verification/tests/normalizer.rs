use cspuz::arithmetic::CmpOp;
use cspuz::config::Config;
use cspuz::csp::test_utils::{eval_bool_expr, eval_int_expr};
use cspuz::csp::{Assignment, BoolExpr, BoolVar, IntExpr, IntVar, Stmt, CSP};
use cspuz::domain::Domain;
use cspuz::norm_csp::test_utils::{norm_csp_all_assignments, Assignment as NAssignment};
use cspuz::norm_csp::NormCSP;
use cspuz::normalizer::stmt::normalize;
use cspuz::normalizer::{ConvertedBoolVar, NormalizeMap};
use std::collections::BTreeSet;

type Flat = (Vec<(usize, bool)>, Vec<(usize, i32)>);

fn flatten(a: &NAssignment) -> Flat {
    (a.bool_entries(), a.int_entries())
}

fn product(domains: &[Vec<i32>]) -> Vec<Vec<i32>> {
    let mut ret: Vec<Vec<i32>> = vec![vec![]];
    for d in domains {
        let mut next = vec![];
        for p in &ret {
            for &v in d {
                let mut q = p.clone();
                q.push(v);
                next.push(q);
            }
        }
        ret = next;
    }
    ret
}

fn is_circuit(values: &[i32]) -> bool {
    let n = values.len();
    if values.iter().any(|&v| v < 0 || v as usize >= n) {
        return false;
    }
    let mut indeg = vec![0; n];
    for &v in values {
        indeg[v as usize] += 1;
    }
    if indeg.iter().any(|&d| d != 1) {
        return false;
    }
    let active: Vec<usize> = (0..n).filter(|&i| values[i] as usize != i).collect();
    if active.is_empty() {
        return true;
    }
    let mut len = 1;
    let mut cur = values[active[0]] as usize;
    while cur != active[0] {
        cur = values[cur] as usize;
        len += 1;
    }
    len == active.len()
}

fn stmt_holds(a: &Assignment, stmt: &Stmt) -> bool {
    match stmt {
        Stmt::Expr(e) => eval_bool_expr(a, e),
        Stmt::AllDifferent(es) => {
            let vals: Vec<i32> = es.iter().map(|e| eval_int_expr(a, e)).collect();
            let set: BTreeSet<i32> = vals.iter().copied().collect();
            set.len() == vals.len()
        }
        Stmt::Circuit(es) => {
            let vals: Vec<i32> = es.iter().map(|e| eval_int_expr(a, e)).collect();
            is_circuit(&vals)
        }
        Stmt::ExtensionSupports(es, supports) => {
            let vals: Vec<i32> = es.iter().map(|e| eval_int_expr(a, e)).collect();
            supports.iter().any(|row| {
                row.iter()
                    .zip(vals.iter())
                    .all(|(s, v)| s.map_or(true, |s| s == *v))
            })
        }
        _ => panic!("unsupported statement"),
    }
}

struct NormalizerTester {
    csp: CSP,
    norm: NormCSP,
    bool_vars: Vec<BoolVar>,
    int_vars: Vec<(IntVar, Domain)>,
    map: NormalizeMap,
    config: Config,
}

impl NormalizerTester {
    fn new() -> NormalizerTester {
        NormalizerTester {
            csp: CSP::new(),
            norm: NormCSP::new(),
            bool_vars: vec![],
            int_vars: vec![],
            map: NormalizeMap::new(),
            config: Config::default(),
        }
    }

    fn new_bool_var(&mut self) -> BoolVar {
        let ret = self.csp.new_bool_var();
        self.bool_vars.push(ret);
        ret
    }

    fn new_int_var(&mut self, domain: Domain) -> IntVar {
        let ret = self.csp.new_int_var(domain.duplicate());
        self.int_vars.push((ret, domain));
        ret
    }

    fn add_expr(&mut self, expr: BoolExpr) {
        self.add_constraint(Stmt::Expr(expr));
    }

    fn add_constraint(&mut self, stmt: Stmt) {
        self.csp.add_constraint(stmt);
    }

    fn csp_all_assignments(&self) -> Vec<Assignment> {
        let nb = self.bool_vars.len();
        let bool_domains = vec![vec![0, 1]; nb];
        let int_domains: Vec<Vec<i32>> = self.int_vars.iter().map(|(_, d)| d.enumerate()).collect();
        let mut ret = vec![];
        for bv in product(&bool_domains) {
            for iv in product(&int_domains) {
                let mut a = Assignment::new();
                for (v, b) in self.bool_vars.iter().zip(bv.iter()) {
                    a.set_bool(*v, *b == 1);
                }
                for ((v, _), x) in self.int_vars.iter().zip(iv.iter()) {
                    a.set_int(*v, *x);
                }
                if self.csp.constraints.iter().all(|s| stmt_holds(&a, s)) {
                    ret.push(a);
                }
            }
        }
        ret
    }

    fn check(&mut self) {
        let csp_assignments = self.csp_all_assignments();

        assert!(normalize(&mut self.csp, &mut self.norm, &mut self.map, &self.config));

        let mut converted_bool_vars = BTreeSet::new();
        for v in &self.bool_vars {
            if let ConvertedBoolVar::Lit(l) = self.map.get_bool_var_raw(*v) {
                converted_bool_vars.insert(l.var.id());
            }
        }
        let mut converted_int_vars = BTreeSet::new();
        for (v, _) in &self.int_vars {
            if let Some(n) = self.map.get_int_var(*v) {
                converted_int_vars.insert(n.id());
            }
        }

        let mut expected: Vec<Flat> = csp_assignments
            .iter()
            .map(|a| {
                let mut n = NAssignment::new();
                for &v in &self.bool_vars {
                    if let ConvertedBoolVar::Lit(lit) = self.map.get_bool_var_raw(v) {
                        n.set_bool(lit.var, a.get_bool(v).unwrap() ^ lit.negated);
                    }
                }
                for (v, _) in &self.int_vars {
                    n.set_int(self.map.get_int_var(*v).unwrap(), a.get_int(*v).unwrap());
                }
                flatten(&n)
            })
            .collect();
        expected.sort();
        expected.dedup();

        let mut actual: Vec<Flat> = norm_csp_all_assignments(&self.norm)
            .iter()
            .map(|a| {
                let (b, i) = flatten(a);
                (
                    b.into_iter().filter(|(v, _)| converted_bool_vars.contains(v)).collect(),
                    i.into_iter().filter(|(v, _)| converted_int_vars.contains(v)).collect(),
                )
            })
            .collect();
        actual.sort();
        actual.dedup();

        assert_eq!(expected, actual);
    }
}

#[test]
fn test_normalization_empty() {
    let mut tester = NormalizerTester::new();

    tester.check();
}

#[test]
fn test_normalization_and() {
    let mut tester = NormalizerTester::new();

    let x = tester.new_bool_var();
    let y = tester.new_bool_var();
    tester.add_expr(x.expr().and(y.expr()));

    tester.check();
}

#[test]
fn test_normalization_or_not_imp() {
    let mut tester = NormalizerTester::new();

    let x = tester.new_bool_var();
    let y = tester.new_bool_var();
    let z = tester.new_bool_var();
    tester.add_expr(x.expr().or(y.expr().not()));
    tester.add_expr(y.expr().imp(z.expr()));

    tester.check();
}

#[test]
fn test_normalization_xor2() {
    let mut tester = NormalizerTester::new();

    let x = tester.new_bool_var();
    let y = tester.new_bool_var();
    let z = tester.new_bool_var();
    let w = tester.new_bool_var();
    tester.add_expr(x.expr().xor(y.expr()).xor(z.expr()).xor(w.expr()));

    tester.check();
}

#[test]
fn test_normalization_many_xor() {
    let mut csp = CSP::new();

    let mut expr = csp.new_bool_var().expr();
    for _ in 0..20 {
        expr = csp.new_bool_var().expr().xor(expr);
    }
    csp.add_constraint(Stmt::Expr(expr));

    let mut norm_csp = NormCSP::new();
    let mut map = NormalizeMap::new();
    assert!(normalize(&mut csp, &mut norm_csp, &mut map, &Config::default()));
    assert!(norm_csp.constraints.len() <= 200);
}

#[test]
fn test_normalization_logic_complex() {
    let mut tester = NormalizerTester::new();

    let x = tester.new_bool_var();
    let y = tester.new_bool_var();
    let z = tester.new_bool_var();
    let v = tester.new_bool_var();
    let w = tester.new_bool_var();
    tester.add_expr(
        x.expr()
            .iff(y.expr().and(w.expr()).imp(z.expr()))
            .xor(z.expr().or(v.expr().xor(w.expr()))),
    );

    tester.check();
}

#[test]
fn test_normalization_linear() {
    let mut tester = NormalizerTester::new();

    let a = tester.new_int_var(Domain::range(0, 2));
    let b = tester.new_int_var(Domain::range(0, 2));
    let lhs = IntExpr::Linear(vec![(Box::new(a.expr()), 1), (Box::new(b.expr()), 1)]);
    let rhs = IntExpr::Linear(vec![(Box::new(a.expr()), 2), (Box::new(b.expr()), -1)]);
    tester.add_expr(lhs.compare(CmpOp::Ge, rhs));

    tester.check();
}

#[test]
fn test_normalization_if() {
    let mut tester = NormalizerTester::new();

    let x = tester.new_bool_var();
    let a = tester.new_int_var(Domain::range(0, 2));
    let b = tester.new_int_var(Domain::range(0, 2));
    let c = tester.new_int_var(Domain::range(0, 2));
    let bc = IntExpr::Linear(vec![(Box::new(b.expr()), 1), (Box::new(c.expr()), 1)]);
    let amb = IntExpr::Linear(vec![(Box::new(a.expr()), 1), (Box::new(b.expr()), -1)]);
    tester.add_expr(x.expr().ite(a.expr(), bc).compare(CmpOp::Le, amb));

    tester.check();
}

#[test]
fn test_normalization_abs() {
    let mut tester = NormalizerTester::new();

    let x = tester.new_int_var(Domain::range(-5, 6));
    let b = tester.new_int_var(Domain::range(-1, 7));
    tester.add_expr(b.expr().compare(CmpOp::Ge, x.expr().abs()));

    tester.check();
}

#[test]
fn test_normalization_mul() {
    let mut tester = NormalizerTester::new();

    let x = tester.new_int_var(Domain::range(-3, 3));
    let y = tester.new_int_var(Domain::range(-2, 2));
    let z = tester.new_int_var(Domain::range(-4, 4));
    tester.add_expr(z.expr().compare(CmpOp::Eq, x.expr().mul(y.expr())));

    tester.check();
}

#[test]
fn test_normalization_equiv_optimization() {
    let mut tester = NormalizerTester::new();

    let v = tester.new_bool_var();
    let w = tester.new_bool_var();
    let x = tester.new_bool_var();
    let y = tester.new_bool_var();
    let z = tester.new_bool_var();
    tester.add_expr(v.expr().iff(w.expr()));
    tester.add_expr(w.expr().xor(x.expr()));
    tester.add_expr(x.expr().xor(y.expr()));
    tester.add_expr(y.expr().iff(z.expr()));

    tester.config.merge_equivalent_variables = true;
    tester.check();
    assert_eq!(
        tester.map.get_bool_var(v).unwrap().var,
        tester.map.get_bool_var(z).unwrap().var,
    );
}

#[test]
fn test_normalization_alldifferent() {
    let mut tester = NormalizerTester::new();

    let a = tester.new_int_var(Domain::range(0, 3));
    let b = tester.new_int_var(Domain::range(0, 3));
    let c = tester.new_int_var(Domain::range(0, 3));
    tester.add_constraint(Stmt::AllDifferent(vec![a.expr(), b.expr(), c.expr()]));
    tester.check();
}

#[test]
fn test_normalization_alldifferent_bijection() {
    let mut tester = NormalizerTester::new();
    tester.config.alldifferent_bijection_constraints = true;

    let a = tester.new_int_var(Domain::range(0, 2));
    let b = tester.new_int_var(Domain::range(0, 2));
    let c = tester.new_int_var(Domain::range(0, 2));
    tester.add_constraint(Stmt::AllDifferent(vec![a.expr(), b.expr(), c.expr()]));
    tester.check();
}

#[test]
fn test_normalization_extension_supports_1() {
    for use_native in [false, true] {
        let mut tester = NormalizerTester::new();
        tester.config.use_native_extension_supports = use_native;

        let a = tester.new_int_var(Domain::range(0, 2));
        let b = tester.new_int_var(Domain::range(0, 2));
        let c = tester.new_int_var(Domain::range(0, 2));
        tester.add_constraint(Stmt::ExtensionSupports(
            vec![a.expr(), b.expr(), c.expr()],
            vec![
                vec![Some(0), Some(0), Some(1)],
                vec![Some(0), Some(1), Some(1)],
                vec![Some(0), Some(1), Some(2)],
                vec![Some(1), Some(1), Some(0)],
                vec![Some(1), Some(2), Some(1)],
                vec![Some(2), Some(0), Some(2)],
            ],
        ));
        tester.check();
    }
}

#[test]
fn test_normalization_extension_supports_2() {
    for use_native in [false, true] {
        let mut tester = NormalizerTester::new();
        tester.config.use_native_extension_supports = use_native;

        let a = tester.new_int_var(Domain::range(0, 3));
        let b = tester.new_int_var(Domain::range(0, 3));
        let c = tester.new_int_var(Domain::range(0, 3));
        tester.add_constraint(Stmt::ExtensionSupports(
            vec![a.expr(), b.expr(), c.expr()],
            vec![
                vec![None, Some(0), Some(1)],
                vec![Some(0), Some(1), Some(1)],
                vec![Some(0), Some(1), Some(2)],
                vec![Some(1), None, Some(0)],
                vec![Some(1), Some(2), None],
                vec![Some(2), Some(0), Some(2)],
            ],
        ));
        tester.check();
    }
}

#[test]
fn test_normalization_circuit_1() {
    let mut tester = NormalizerTester::new();

    let a = tester.new_int_var(Domain::range(0, 2));
    let b = tester.new_int_var(Domain::range(0, 2));
    let c = tester.new_int_var(Domain::range(-1, 2));
    tester.add_constraint(Stmt::Circuit(vec![a.expr(), b.expr(), c.expr()]));
    tester.check();
}
