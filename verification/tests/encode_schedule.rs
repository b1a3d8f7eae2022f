use cspuz::arithmetic::CmpOp;
use cspuz::config::Config;
use cspuz::domain::Domain;
use cspuz::encoder::schedule::{decide_encode_schemes, encode, EncodeScheme};
use cspuz::encoder::EncodeMap;
use cspuz::norm_csp::linear::{LinearLit, LinearSum};
use cspuz::csp::GraphDivisionOptions;
use cspuz::norm_csp::{
    BoolLit, BoolVar, Constraint, ExtraConstraint, IntVar, IntVarRepresentation, NormCSP, NormCSPVars,
};
use cspuz::sat::SAT;

fn sum_of(terms: &[(IntVar, i32)], constant: i32) -> LinearSum {
    let mut s = LinearSum::constant(constant);
    for &(v, c) in terms {
        s.add_coef(v, c);
    }
    s
}

fn linear_constraint(terms: &[(IntVar, i32)], op: CmpOp) -> Constraint {
    let mut c = Constraint::new();
    c.linear_lit.push(LinearLit::new(sum_of(terms, 0), op));
    c
}

#[test]
fn test_decide_encode_schemes_rules() {
    let mut vars = NormCSPVars::new();
    let x = vars.new_int_var(IntVarRepresentation::Domain(Domain::range(0, 5)));
    let y = vars.new_int_var(IntVarRepresentation::Domain(Domain::range(0, 5)));
    let z = vars.new_int_var(IntVarRepresentation::Domain(Domain::range(0, 5)));
    let w = vars.new_int_var(IntVarRepresentation::Domain(Domain::range(0, 1000)));
    let s = vars.new_int_var(IntVarRepresentation::Domain(Domain::range(1, 4)));
    let constraints = vec![
        // an equality of two terms keeps x and y direct
        linear_constraint(&[(x, 1), (y, -1)], CmpOp::Eq),
        // an inequality makes z order encoded
        linear_constraint(&[(z, 1), (w, 1)], CmpOp::Ge),
    ];
    let extra = vec![ExtraConstraint::GraphDivision(
        vec![Some(s)],
        vec![],
        vec![],
        GraphDivisionOptions::default(),
    )];
    let config = Config::initial_default();
    let r = decide_encode_schemes(&config, &vars, 0, 5, &constraints, &extra);
    assert_eq!(
        r,
        vec![
            EncodeScheme::Direct,
            EncodeScheme::Direct,
            EncodeScheme::Order,
            EncodeScheme::Order,
            EncodeScheme::Order
        ]
    );
    let mut off = config;
    off.use_direct_encoding = false;
    let r = decide_encode_schemes(&off, &vars, 0, 5, &constraints, &extra);
    assert!(r.iter().all(|&e| e == EncodeScheme::Order));
    // more than 500 values: order encoding even in an equality
    let mut vars2 = NormCSPVars::new();
    let big = vars2.new_int_var(IntVarRepresentation::Domain(Domain::range(0, 500)));
    let small = vars2.new_int_var(IntVarRepresentation::Domain(Domain::range(0, 499)));
    let cs = vec![linear_constraint(&[(big, 1), (small, -1)], CmpOp::Ne)];
    let r = decide_encode_schemes(&config, &vars2, 0, 2, &cs, &vec![]);
    assert_eq!(r, vec![EncodeScheme::Order, EncodeScheme::Direct]);
}

#[test]
fn test_encode_keeps_clauses_and_reports_extra() {
    let mut norm = NormCSP::new();
    let b = norm.new_bool_var();
    let mut c = Constraint::new();
    c.bool_lit.push(BoolLit::new(b, false));
    norm.add_constraint(c);
    let mut sat = SAT::new();
    let mut map = EncodeMap::new();
    let config = Config::initial_default();
    assert!(encode(&mut norm, &mut sat, &mut map, &config));
    assert!(sat.solve().is_some());
    let mut c = Constraint::new();
    c.bool_lit.push(BoolLit::new(b, true));
    norm.add_constraint(c);
    norm.add_extra_constraint(ExtraConstraint::ActiveVerticesConnected(
        vec![BoolLit::new(BoolVar::new(0), false)],
        vec![],
    ));
    assert!(!encode(&mut norm, &mut sat, &mut map, &config));
    // the clause of the first call stays: `b` and `!b` cannot both hold
    assert!(sat.solve().is_none());
    assert!(norm.constraints.is_empty());
    assert!(norm.extra_constraints.is_empty());
}

#[test]
fn test_sat_stats_unavailable() {
    let sat = SAT::new();
    let st = sat.stats();
    assert!(st.decisions.is_none() && st.propagations.is_none() && st.conflicts.is_none());
}
