use cspuz::arithmetic::CmpOp;
use cspuz::csp::test_utils::{eval_bool_expr, eval_int_expr};
use cspuz::csp::{
    Assignment, BoolExpr, BoolVar, BoolVarStatus, GraphDivisionOptions, IntExpr, IntVar,
    IntVarStatus, Stmt, CSP,
};
use cspuz::domain::Domain;
use cspuz::util::UpdateStatus;

#[test]
fn test_csp() {
    let mut csp = CSP::new();

    let n = csp.new_int_var_from_list(vec![4, 2, 3, 2]);
    assert_eq!(csp.vars.int_var[n.id()].domain, Domain::enumerative(vec![2, 3, 4]));
}

#[test]
fn test_constant_folding_bool() {
    let mut csp = CSP::new();

    let x = csp.new_bool_var();
    let y = csp.new_bool_var();
    let t = csp.new_bool_var();
    let f = csp.new_bool_var();

    csp.vars.bool_var[t.id()].set_infeasible(false); // a := true
    csp.vars.bool_var[f.id()].set_infeasible(true); // b := false

    // and
    let mut expr = x.expr().and(y.expr());
    csp.vars.constant_folding_bool(&mut expr);
    assert_eq!(expr, x.expr().and(y.expr()));

    let mut expr = x.expr().and(t.expr());
    csp.vars.constant_folding_bool(&mut expr);
    assert_eq!(expr, x.expr());

    let mut expr = t.expr().and(x.expr());
    csp.vars.constant_folding_bool(&mut expr);
    assert_eq!(expr, x.expr());

    let mut expr = x.expr().and(f.expr());
    csp.vars.constant_folding_bool(&mut expr);
    assert_eq!(expr, BoolExpr::Const(false));

    let mut expr = f.expr().and(x.expr());
    csp.vars.constant_folding_bool(&mut expr);
    assert_eq!(expr, BoolExpr::Const(false));

    let mut expr = BoolExpr::Const(true).and(BoolExpr::Const(true));
    csp.vars.constant_folding_bool(&mut expr);
    assert_eq!(expr, BoolExpr::Const(true));

    let mut expr = BoolExpr::Const(true).and(BoolExpr::Const(false));
    csp.vars.constant_folding_bool(&mut expr);
    assert_eq!(expr, BoolExpr::Const(false));

    // or
    let mut expr = x.expr().or(y.expr());
    csp.vars.constant_folding_bool(&mut expr);
    assert_eq!(expr, x.expr().or(y.expr()));

    let mut expr = x.expr().or(t.expr());
    csp.vars.constant_folding_bool(&mut expr);
    assert_eq!(expr, BoolExpr::Const(true));

    let mut expr = t.expr().or(x.expr());
    csp.vars.constant_folding_bool(&mut expr);
    assert_eq!(expr, BoolExpr::Const(true));

    let mut expr = x.expr().or(f.expr());
    csp.vars.constant_folding_bool(&mut expr);
    assert_eq!(expr, x.expr());

    let mut expr = f.expr().or(x.expr());
    csp.vars.constant_folding_bool(&mut expr);
    assert_eq!(expr, x.expr());

    let mut expr = BoolExpr::Const(false).or(BoolExpr::Const(false));
    csp.vars.constant_folding_bool(&mut expr);
    assert_eq!(expr, BoolExpr::Const(false));

    let mut expr = BoolExpr::Const(true).or(BoolExpr::Const(false));
    csp.vars.constant_folding_bool(&mut expr);
    assert_eq!(expr, BoolExpr::Const(true));

    // not
    let mut expr = x.expr().not();
    csp.vars.constant_folding_bool(&mut expr);
    assert_eq!(expr, x.expr().not());

    let mut expr = t.expr().not();
    csp.vars.constant_folding_bool(&mut expr);
    assert_eq!(expr, BoolExpr::Const(false));

    // xor
    let mut expr = x.expr().xor(y.expr());
    csp.vars.constant_folding_bool(&mut expr);
    assert_eq!(expr, x.expr().xor(y.expr()));

    let mut expr = x.expr().xor(t.expr());
    csp.vars.constant_folding_bool(&mut expr);
    assert_eq!(expr, x.expr().not());

    let mut expr = t.expr().xor(x.expr());
    csp.vars.constant_folding_bool(&mut expr);
    assert_eq!(expr, x.expr().not());

    let mut expr = x.expr().xor(f.expr());
    csp.vars.constant_folding_bool(&mut expr);
    assert_eq!(expr, x.expr());

    let mut expr = f.expr().xor(x.expr());
    csp.vars.constant_folding_bool(&mut expr);
    assert_eq!(expr, x.expr());

    let mut expr = BoolExpr::Const(true).xor(BoolExpr::Const(true));
    csp.vars.constant_folding_bool(&mut expr);
    assert_eq!(expr, BoolExpr::Const(false));

    // iff
    let mut expr = x.expr().iff(y.expr());
    csp.vars.constant_folding_bool(&mut expr);
    assert_eq!(expr, x.expr().iff(y.expr()));

    let mut expr = x.expr().iff(t.expr());
    csp.vars.constant_folding_bool(&mut expr);
    assert_eq!(expr, x.expr());

    let mut expr = t.expr().iff(x.expr());
    csp.vars.constant_folding_bool(&mut expr);
    assert_eq!(expr, x.expr());

    let mut expr = x.expr().iff(f.expr());
    csp.vars.constant_folding_bool(&mut expr);
    assert_eq!(expr, x.expr().not());

    let mut expr = f.expr().iff(x.expr());
    csp.vars.constant_folding_bool(&mut expr);
    assert_eq!(expr, x.expr().not());

    let mut expr = BoolExpr::Const(true).iff(BoolExpr::Const(true));
    csp.vars.constant_folding_bool(&mut expr);
    assert_eq!(expr, BoolExpr::Const(true));

    // imp
    let mut expr = x.expr().imp(y.expr());
    csp.vars.constant_folding_bool(&mut expr);
    assert_eq!(expr, x.expr().imp(y.expr()));

    let mut expr = x.expr().imp(t.expr());
    csp.vars.constant_folding_bool(&mut expr);
    assert_eq!(expr, BoolExpr::Const(true));

    let mut expr = t.expr().imp(x.expr());
    csp.vars.constant_folding_bool(&mut expr);
    assert_eq!(expr, x.expr());

    let mut expr = x.expr().imp(f.expr());
    csp.vars.constant_folding_bool(&mut expr);
    assert_eq!(expr, x.expr().not());

    let mut expr = f.expr().imp(x.expr());
    csp.vars.constant_folding_bool(&mut expr);
    assert_eq!(expr, BoolExpr::Const(true));

    let mut expr = BoolExpr::Const(true).imp(BoolExpr::Const(false));
    csp.vars.constant_folding_bool(&mut expr);
    assert_eq!(expr, BoolExpr::Const(false));

    // cmp
    let mut expr = BoolExpr::Cmp(
        CmpOp::Eq,
        Box::new(x.expr().ite(IntExpr::Const(1), IntExpr::Const(0))),
        Box::new(y.expr().or(f.expr()).ite(IntExpr::Const(1), IntExpr::Const(0))),
    );
    csp.vars.constant_folding_bool(&mut expr);
    assert_eq!(
        expr,
        BoolExpr::Cmp(
            CmpOp::Eq,
            Box::new(x.expr().ite(IntExpr::Const(1), IntExpr::Const(0))),
            Box::new(y.expr().ite(IntExpr::Const(1), IntExpr::Const(0))),
        )
    );
}

#[test]
fn test_constant_folding_int() {
    let mut csp = CSP::new();

    let a = csp.new_int_var(Domain::range(0, 5));
    let n = csp.new_int_var(Domain::range(1, 1));
    let x = csp.new_bool_var();

    // var
    let mut expr = a.expr();
    csp.vars.constant_folding_int(&mut expr);
    assert_eq!(expr, a.expr());

    // linear
    let mut expr = IntExpr::Linear(vec![]);
    csp.vars.constant_folding_int(&mut expr);
    assert_eq!(expr, IntExpr::Const(0));

    let mut expr = IntExpr::Linear(vec![(Box::new(a.expr()), 1)]);
    csp.vars.constant_folding_int(&mut expr);
    assert_eq!(expr, a.expr());

    // if
    let mut expr = x.expr().ite(a.expr(), n.expr());
    csp.vars.constant_folding_int(&mut expr);
    assert_eq!(expr, x.expr().ite(a.expr(), IntExpr::Const(1)));

    let mut expr = BoolExpr::Const(true).ite(a.expr(), n.expr());
    csp.vars.constant_folding_int(&mut expr);
    assert_eq!(expr, a.expr());

    let mut expr = BoolExpr::Const(false).ite(a.expr(), n.expr());
    csp.vars.constant_folding_int(&mut expr);
    assert_eq!(expr, IntExpr::Const(1));

    // abs
    let mut expr = x.expr().ite(a.expr(), n.expr()).abs();
    csp.vars.constant_folding_int(&mut expr);
    assert_eq!(expr, x.expr().ite(a.expr(), IntExpr::Const(1)).abs());

    // mul
    let mut expr = x.expr().ite(a.expr(), n.expr()).mul(a.expr());
    csp.vars.constant_folding_int(&mut expr);
    assert_eq!(expr, x.expr().ite(a.expr(), IntExpr::Const(1)).mul(a.expr()));

    let mut expr = IntExpr::Const(4).mul(IntExpr::Const(2));
    csp.vars.constant_folding_int(&mut expr);
    assert_eq!(expr, IntExpr::Const(8));

    let mut expr = IntExpr::Const(4).mul(a.expr());
    csp.vars.constant_folding_int(&mut expr);
    assert_eq!(expr, IntExpr::Linear(vec![(Box::new(a.expr()), 4)]));

    let mut expr = a.expr().mul(IntExpr::Const(2));
    csp.vars.constant_folding_int(&mut expr);
    assert_eq!(expr, IntExpr::Linear(vec![(Box::new(a.expr()), 2)]));

    let mut expr = IntExpr::Const(0).mul(a.expr());
    csp.vars.constant_folding_int(&mut expr);
    assert_eq!(expr, IntExpr::Const(0));

    let mut expr = a.expr().mul(IntExpr::Const(0));
    csp.vars.constant_folding_int(&mut expr);
    assert_eq!(expr, IntExpr::Const(0));
}

fn feasible(csp: &CSP, v: BoolVar, b: bool) -> bool {
    csp.vars.bool_var[v.id()].is_feasible(b)
}

#[test]
fn test_constant_prop_bool() {
    // const
    {
        let mut csp = CSP::new();
        assert_eq!(
            csp.vars.constant_prop_bool(&BoolExpr::Const(true), true),
            UpdateStatus::NotUpdated
        );
    }
    {
        let mut csp = CSP::new();
        assert_eq!(
            csp.vars.constant_prop_bool(&BoolExpr::Const(false), false),
            UpdateStatus::NotUpdated
        );
    }
    {
        let mut csp = CSP::new();
        assert_eq!(
            csp.vars.constant_prop_bool(&BoolExpr::Const(true), false),
            UpdateStatus::Unsatisfiable
        );
    }
    {
        let mut csp = CSP::new();
        assert_eq!(
            csp.vars.constant_prop_bool(&BoolExpr::Const(false), true),
            UpdateStatus::Unsatisfiable
        );
    }

    // var
    {
        let mut csp = CSP::new();

        let x = csp.new_bool_var();
        let y = csp.new_bool_var();

        assert_eq!(csp.vars.constant_prop_bool(&x.expr(), false), UpdateStatus::Updated);
        assert!(feasible(&csp, x, false));
        assert!(!feasible(&csp, x, true));

        assert_eq!(csp.vars.constant_prop_bool(&y.expr(), true), UpdateStatus::Updated);
        assert!(!feasible(&csp, y, false));
        assert!(feasible(&csp, y, true));
    }

    // and
    {
        let mut csp = CSP::new();

        let x = csp.new_bool_var();
        let y = csp.new_bool_var();

        assert_eq!(
            csp.vars.constant_prop_bool(&x.expr().and(y.expr()), true),
            UpdateStatus::Updated
        );
        assert!(!feasible(&csp, x, false));
        assert!(feasible(&csp, x, true));
        assert!(!feasible(&csp, y, false));
        assert!(feasible(&csp, y, true));
    }

    {
        let mut csp = CSP::new();

        let x = csp.new_bool_var();
        let y = csp.new_bool_var();

        assert_eq!(
            csp.vars.constant_prop_bool(&x.expr().and(y.expr()), false),
            UpdateStatus::NotUpdated
        );
        assert!(feasible(&csp, x, false));
        assert!(feasible(&csp, x, true));
        assert!(feasible(&csp, y, false));
        assert!(feasible(&csp, y, true));
    }

    // or
    {
        let mut csp = CSP::new();

        let x = csp.new_bool_var();
        let y = csp.new_bool_var();

        assert_eq!(
            csp.vars.constant_prop_bool(&x.expr().or(y.expr()), true),
            UpdateStatus::NotUpdated
        );
        assert!(feasible(&csp, x, false));
        assert!(feasible(&csp, x, true));
        assert!(feasible(&csp, y, false));
        assert!(feasible(&csp, y, true));
    }

    {
        let mut csp = CSP::new();

        let x = csp.new_bool_var();
        let y = csp.new_bool_var();

        assert_eq!(
            csp.vars.constant_prop_bool(&x.expr().or(y.expr()), false),
            UpdateStatus::Updated
        );
        assert!(feasible(&csp, x, false));
        assert!(!feasible(&csp, x, true));
        assert!(feasible(&csp, y, false));
        assert!(!feasible(&csp, y, true));
    }

    // not
    {
        let mut csp = CSP::new();

        let x = csp.new_bool_var();

        assert_eq!(csp.vars.constant_prop_bool(&x.expr().not(), true), UpdateStatus::Updated);
        assert!(feasible(&csp, x, false));
        assert!(!feasible(&csp, x, true));
    }

    {
        let mut csp = CSP::new();

        let x = csp.new_bool_var();

        assert_eq!(csp.vars.constant_prop_bool(&x.expr().not(), false), UpdateStatus::Updated);
        assert!(!feasible(&csp, x, false));
        assert!(feasible(&csp, x, true));
    }

    // imp
    {
        let mut csp = CSP::new();

        let x = csp.new_bool_var();
        let y = csp.new_bool_var();

        assert_eq!(
            csp.vars.constant_prop_bool(&x.expr().imp(y.expr()), true),
            UpdateStatus::NotUpdated
        );
        assert!(feasible(&csp, x, false));
        assert!(feasible(&csp, x, true));
        assert!(feasible(&csp, y, false));
        assert!(feasible(&csp, y, true));
    }

    {
        let mut csp = CSP::new();

        let x = csp.new_bool_var();
        let y = csp.new_bool_var();

        assert_eq!(
            csp.vars.constant_prop_bool(&x.expr().imp(y.expr()), false),
            UpdateStatus::Updated
        );
        assert!(!feasible(&csp, x, false));
        assert!(feasible(&csp, x, true));
        assert!(feasible(&csp, y, false));
        assert!(!feasible(&csp, y, true));
    }

    // xor
    for b in [false, true] {
        let mut csp = CSP::new();

        let x = csp.new_bool_var();
        let y = csp.new_bool_var();

        assert_eq!(
            csp.vars.constant_prop_bool(&x.expr().xor(y.expr()), b),
            UpdateStatus::NotUpdated
        );
        assert!(feasible(&csp, x, false));
        assert!(feasible(&csp, x, true));
        assert!(feasible(&csp, y, false));
        assert!(feasible(&csp, y, true));
    }

    // iff
    for b in [false, true] {
        let mut csp = CSP::new();

        let x = csp.new_bool_var();
        let y = csp.new_bool_var();

        assert_eq!(
            csp.vars.constant_prop_bool(&x.expr().iff(y.expr()), b),
            UpdateStatus::NotUpdated
        );
        assert!(feasible(&csp, x, false));
        assert!(feasible(&csp, x, true));
        assert!(feasible(&csp, y, false));
        assert!(feasible(&csp, y, true));
    }
}

#[test]
fn test_vars_iter() {
    let mut csp = CSP::new();

    let x = csp.new_bool_var();
    let y = csp.new_bool_var();
    let z = csp.new_bool_var();

    let a = csp.new_int_var(Domain::range(0, 5));
    let b = csp.new_int_var(Domain::range(1, 10));

    assert_eq!(csp.vars.bool_vars_iter(), vec![x, y, z]);
    assert_eq!(csp.vars.int_vars_iter(), vec![a, b]);
}

#[test]
fn test_vars_index() {
    let mut csp = CSP::new();

    let x = csp.new_bool_var();
    let y = csp.new_bool_var();

    let a = csp.new_int_var(Domain::range(0, 5));
    let b = csp.new_int_var(Domain::range(1, 10));

    csp.vars.constant_prop_bool(&y.expr(), false);

    assert_eq!(csp.vars.bool_var(x).possibility_mask, 3);
    assert_eq!(csp.vars.bool_var(y).possibility_mask, 1);
    assert_eq!(csp.vars.int_var(a).domain, Domain::range(0, 5));
    assert_eq!(csp.vars.int_var(b).domain, Domain::range(1, 10));
    csp.vars.int_var[b.id()].domain.refine_lower_bound(3);
    assert_eq!(csp.vars.int_var(b).domain, Domain::range(3, 10));
}

#[test]
fn test_csp_constant_folding() {
    let mut csp = CSP::new();

    let x = csp.new_bool_var();
    let y = csp.new_bool_var();
    let a = csp.new_int_var(Domain::range(0, 5));

    csp.add_constraint(Stmt::Expr(x.expr().or(BoolExpr::Const(false))));
    csp.add_constraint(Stmt::AllDifferent(vec![a.expr(), IntExpr::Linear(vec![])]));
    csp.add_constraint(Stmt::ActiveVerticesConnected(
        vec![x.expr().or(BoolExpr::Const(false)), y.expr()],
        vec![(0, 1)],
    ));
    csp.add_constraint(Stmt::Circuit(vec![a.expr(), IntExpr::Linear(vec![])]));
    csp.add_constraint(Stmt::ExtensionSupports(
        vec![a.expr(), IntExpr::Linear(vec![])],
        vec![],
    ));
    csp.add_constraint(Stmt::GraphDivision(
        vec![Some(a.expr()), Some(IntExpr::Linear(vec![])), None],
        vec![(0, 1)],
        vec![x.expr().or(BoolExpr::Const(false))],
        GraphDivisionOptions::default(),
    ));

    csp.apply_constant_folding();

    assert!(matches!(&csp.constraints[0], Stmt::Expr(e) if e == &x.expr()));
    assert!(
        matches!(&csp.constraints[1], Stmt::AllDifferent(e) if e == &[a.expr(), IntExpr::Const(0)])
    );
    assert!(
        matches!(&csp.constraints[2], Stmt::ActiveVerticesConnected(e, _) if e == &[x.expr(), y.expr()])
    );
    assert!(matches!(&csp.constraints[3], Stmt::Circuit(e) if e == &[a.expr(), IntExpr::Const(0)]));
    assert!(
        matches!(&csp.constraints[4], Stmt::ExtensionSupports(e, _) if e == &[a.expr(), IntExpr::Const(0)])
    );
    assert!(
        matches!(&csp.constraints[5], Stmt::GraphDivision(s, _, e, _) if s == &[Some(a.expr()), Some(IntExpr::Const(0)), None] && e == &[x.expr()])
    );
}

#[test]
fn test_csp_optimize() {
    {
        let mut csp = CSP::new();

        let x = csp.new_bool_var();
        let y = csp.new_bool_var();
        let z = csp.new_bool_var();

        csp.add_constraint(Stmt::Expr(x.expr().or(y.expr())));
        csp.add_constraint(Stmt::Expr(y.expr().not().or(z.expr())));
        csp.add_constraint(Stmt::Expr(z.expr().not()));

        csp.optimize(false);

        assert!(!csp.is_inconsistent());
        assert!(matches!(&csp.constraints[0], Stmt::Expr(e) if e == &x.expr().or(y.expr())));
        assert!(matches!(&csp.constraints[1], Stmt::Expr(e) if e == &y.expr().not().or(z.expr())));
        assert!(matches!(&csp.constraints[2], Stmt::Expr(e) if e == &z.expr().not()));
    }

    {
        let mut csp = CSP::new();

        let x = csp.new_bool_var();
        let y = csp.new_bool_var();
        let z = csp.new_bool_var();

        csp.add_constraint(Stmt::Expr(x.expr().or(y.expr())));
        csp.add_constraint(Stmt::Expr(y.expr().not().or(z.expr())));
        csp.add_constraint(Stmt::Expr(z.expr().not()));

        csp.optimize(true);

        assert!(!csp.is_inconsistent());
        assert!(matches!(&csp.constraints[0], Stmt::Expr(e) if e == &BoolExpr::Const(true)));
        assert!(matches!(&csp.constraints[1], Stmt::Expr(e) if e == &BoolExpr::Const(true)));
        assert!(matches!(&csp.constraints[2], Stmt::Expr(e) if e == &BoolExpr::Const(true)));
        assert!(matches!(csp.get_bool_var_status(x), BoolVarStatus::Fixed(true)));
        assert!(matches!(csp.get_bool_var_status(y), BoolVarStatus::Fixed(false)));
        assert!(matches!(csp.get_bool_var_status(z), BoolVarStatus::Fixed(false)));
    }

    {
        let mut csp = CSP::new();

        let x = csp.new_bool_var();
        let y = csp.new_bool_var();

        csp.add_constraint(Stmt::Expr(x.expr().and(y.expr())));
        csp.add_constraint(Stmt::Expr(x.expr().not().or(y.expr().not())));

        csp.optimize(true);

        assert!(csp.is_inconsistent());
    }
}

#[test]
fn test_assignment() {
    let mut assignment = Assignment::new();

    let x = BoolVar::new(0);
    let y = BoolVar::new(1);
    let z = BoolVar::new(2);
    let a = IntVar::new(0);
    let b = IntVar::new(1);
    let c = IntVar::new(2);

    assignment.set_bool(x, true);
    assignment.set_bool(y, false);
    assignment.set_int(a, 42);
    assignment.set_int(b, 100);

    assert_eq!(assignment.bool_iter(), vec![(x, true), (y, false)]);
    assert_eq!(assignment.int_iter(), vec![(a, 42), (b, 100)]);

    assert_eq!(assignment.get_bool(x), Some(true));
    assert_eq!(assignment.get_bool(y), Some(false));
    assert_eq!(assignment.get_bool(z), None);

    assert_eq!(assignment.get_int(a), Some(42));
    assert_eq!(assignment.get_int(b), Some(100));
    assert_eq!(assignment.get_int(c), None);

    assert_eq!(assignment.remove_bool(x), Some(true));
    assert_eq!(assignment.remove_bool(x), None);
    assert_eq!(assignment.get_bool(x), None);

    assert_eq!(assignment.remove_int(a), Some(42));
    assert_eq!(assignment.remove_int(a), None);
    assert_eq!(assignment.get_int(a), None);
}

#[test]
fn test_eval_expr() {
    let mut assignment = Assignment::new();

    let t = BoolVar::new(0);
    let f = BoolVar::new(1);
    let a = IntVar::new(0);
    let b = IntVar::new(1);

    assignment.set_bool(t, true);
    assignment.set_bool(f, false);
    assignment.set_int(a, 42);
    assignment.set_int(b, 100);

    assert_eq!(eval_bool_expr(&assignment, &BoolExpr::Const(true)), true);

    assert_eq!(eval_bool_expr(&assignment, &t.expr()), true);
    assert_eq!(eval_bool_expr(&assignment, &f.expr()), false);
    assert_eq!(eval_int_expr(&assignment, &a.expr()), 42);
    assert_eq!(eval_int_expr(&assignment, &b.expr()), 100);

    assert_eq!(eval_bool_expr(&assignment, &t.expr().and(t.expr())), true);
    assert_eq!(eval_bool_expr(&assignment, &t.expr().and(f.expr())), false);
    assert_eq!(eval_bool_expr(&assignment, &f.expr().and(t.expr())), false);
    assert_eq!(eval_bool_expr(&assignment, &f.expr().and(f.expr())), false);

    assert_eq!(eval_bool_expr(&assignment, &t.expr().or(t.expr())), true);
    assert_eq!(eval_bool_expr(&assignment, &t.expr().or(f.expr())), true);
    assert_eq!(eval_bool_expr(&assignment, &f.expr().or(t.expr())), true);
    assert_eq!(eval_bool_expr(&assignment, &f.expr().or(f.expr())), false);

    assert_eq!(eval_bool_expr(&assignment, &t.expr().not()), false);
    assert_eq!(eval_bool_expr(&assignment, &f.expr().not()), true);

    assert_eq!(eval_bool_expr(&assignment, &t.expr().xor(t.expr())), false);
    assert_eq!(eval_bool_expr(&assignment, &t.expr().xor(f.expr())), true);
    assert_eq!(eval_bool_expr(&assignment, &f.expr().xor(t.expr())), true);
    assert_eq!(eval_bool_expr(&assignment, &f.expr().xor(f.expr())), false);

    assert_eq!(eval_bool_expr(&assignment, &t.expr().iff(t.expr())), true);
    assert_eq!(eval_bool_expr(&assignment, &t.expr().iff(f.expr())), false);
    assert_eq!(eval_bool_expr(&assignment, &f.expr().iff(t.expr())), false);
    assert_eq!(eval_bool_expr(&assignment, &f.expr().iff(f.expr())), true);

    assert_eq!(eval_bool_expr(&assignment, &t.expr().imp(t.expr())), true);
    assert_eq!(eval_bool_expr(&assignment, &t.expr().imp(f.expr())), false);
    assert_eq!(eval_bool_expr(&assignment, &f.expr().imp(t.expr())), true);
    assert_eq!(eval_bool_expr(&assignment, &f.expr().imp(f.expr())), true);

    let cmp = |op: CmpOp| BoolExpr::Cmp(op, Box::new(a.expr()), Box::new(b.expr()));
    assert_eq!(eval_bool_expr(&assignment, &cmp(CmpOp::Eq)), false);
    assert_eq!(eval_bool_expr(&assignment, &cmp(CmpOp::Ne)), true);
    assert_eq!(eval_bool_expr(&assignment, &cmp(CmpOp::Le)), true);
    assert_eq!(eval_bool_expr(&assignment, &cmp(CmpOp::Lt)), true);
    assert_eq!(eval_bool_expr(&assignment, &cmp(CmpOp::Ge)), false);
    assert_eq!(eval_bool_expr(&assignment, &cmp(CmpOp::Gt)), false);

    assert_eq!(eval_int_expr(&assignment, &IntExpr::Const(42)), 42);

    assert_eq!(
        eval_int_expr(
            &assignment,
            &IntExpr::Linear(vec![(Box::new(a.expr()), 2), (Box::new(b.expr()), 3)])
        ),
        2 * 42 + 3 * 100
    );

    assert_eq!(
        eval_int_expr(
            &assignment,
            &IntExpr::If(Box::new(t.expr()), Box::new(a.expr()), Box::new(b.expr()))
        ),
        42
    );
    assert_eq!(
        eval_int_expr(
            &assignment,
            &IntExpr::If(Box::new(f.expr()), Box::new(a.expr()), Box::new(b.expr()))
        ),
        100
    );

    assert_eq!(eval_int_expr(&assignment, &IntExpr::Abs(Box::new(a.expr()))), 42);
    assert_eq!(
        eval_int_expr(
            &assignment,
            &IntExpr::Abs(Box::new(IntExpr::Linear(vec![(Box::new(a.expr()), -1)])))
        ),
        42
    );

    assert_eq!(
        eval_int_expr(&assignment, &IntExpr::Mul(Box::new(a.expr()), Box::new(b.expr()))),
        42 * 100
    );
}

#[test]
fn test_int_var_status() {
    let mut csp = CSP::new();
    let a = csp.new_int_var(Domain::range(3, 7));
    let b = csp.new_int_var(Domain::range(4, 4));
    let c = csp.new_int_var(Domain::range(5, 4));
    assert!(matches!(csp.get_int_var_status(a), IntVarStatus::Unfixed(3)));
    assert!(matches!(csp.get_int_var_status(b), IntVarStatus::Fixed(4)));
    assert!(matches!(csp.get_int_var_status(c), IntVarStatus::Infeasible));
}
