use cspuz::csp::test_utils::{eval_bool_expr, eval_int_expr};
use cspuz::csp::{Assignment, BoolExpr, BoolVar, IntExpr};
use cspuz::solver::constraints::{bool_constant, consecutive_prefix_true, int_constant};
use cspuz::solver2::constraints::{all, any, count_true, sum};

fn assignment(values: &[bool]) -> (Assignment, Vec<BoolVar>) {
    let mut a = Assignment::new();
    let mut vars = vec![];
    for (i, &b) in values.iter().enumerate() {
        let v = BoolVar::new(i);
        a.set_bool(v, b);
        vars.push(v);
    }
    (a, vars)
}

#[test]
fn test_any_all_count() {
    for mask in 0..16u32 {
        let values = (0..4).map(|i| (mask >> i) & 1 == 1).collect::<Vec<_>>();
        let (a, vars) = assignment(&values);
        let exprs = || vars.iter().map(|v| v.expr()).collect::<Vec<_>>();
        let n_true = values.iter().filter(|&&b| b).count() as i32;
        assert_eq!(eval_bool_expr(&a, &any(exprs()).data[0]), n_true > 0);
        assert_eq!(eval_bool_expr(&a, &all(exprs()).data[0]), n_true == 4);
        assert_eq!(eval_int_expr(&a, &count_true(exprs()).data[0]), n_true);
        let prefix = values.iter().take_while(|&&b| b).count() as i32;
        assert_eq!(eval_int_expr(&a, &consecutive_prefix_true(exprs()).data[0]), prefix);
    }
}

#[test]
fn test_sum_and_constants() {
    let a = Assignment::new();
    let s = sum(vec![IntExpr::Const(3), IntExpr::Const(-5), IntExpr::Const(10)]);
    assert_eq!(eval_int_expr(&a, &s.data[0]), 8);
    assert_eq!(s.data[0], IntExpr::Linear(vec![
        (Box::new(IntExpr::Const(3)), 1),
        (Box::new(IntExpr::Const(-5)), 1),
        (Box::new(IntExpr::Const(10)), 1),
    ]));
    assert_eq!(bool_constant(true).data, vec![BoolExpr::Const(true)]);
    assert_eq!(int_constant(7).data, vec![IntExpr::Const(7)]);
    // an empty array: `any` is false, `all` is true, the sums are zero
    assert!(!eval_bool_expr(&a, &any(vec![]).data[0]));
    assert!(eval_bool_expr(&a, &all(vec![]).data[0]));
    assert_eq!(eval_int_expr(&a, &count_true(vec![]).data[0]), 0);
    assert_eq!(eval_int_expr(&a, &consecutive_prefix_true(vec![]).data[0]), 0);
}
