use cspuz::propagators::order_encoding_linear::{LinearTerm, OrderEncodingLinear};
use cspuz::propagators::{CustomPropagator, SolverManipulator};
use cspuz::sat::Lit;

/// A solver that has decided every variable.
struct FixedAssignment {
    values: Vec<bool>,
}

impl FixedAssignment {
    fn holds(&self, lit: Lit) -> bool {
        let var = (lit.0 / 2) as usize;
        let negated = lit.0 % 2 == 1;
        self.values[var] != negated
    }
}

impl SolverManipulator for FixedAssignment {
    fn value(&self, lit: Lit) -> Option<bool> {
        Some(self.holds(lit))
    }

    fn add_watch(&mut self, _lit: Lit) {}

    fn enqueue(&mut self, lit: Lit) -> bool {
        self.holds(lit)
    }

    fn is_current_level(&self, _lit: Lit) -> bool {
        true
    }
}

/// A solver that has decided nothing and accepts every assertion.
struct Recorder {
    enqueued: Vec<Lit>,
}

impl SolverManipulator for Recorder {
    fn value(&self, _lit: Lit) -> Option<bool> {
        None
    }

    fn add_watch(&mut self, _lit: Lit) {}

    fn enqueue(&mut self, lit: Lit) -> bool {
        self.enqueued.push(lit);
        true
    }

    fn is_current_level(&self, _lit: Lit) -> bool {
        true
    }
}

fn lit_of(var: usize) -> Lit {
    Lit((var * 2) as i32)
}

/// Order-encoding values of `x` over `domain` for literals on variables
/// `first..`: literal `j` is true when `x >= domain[j + 1]`.
fn encode(values: &mut [bool], first: usize, domain: &[i32], x: i32) {
    for j in 0..domain.len() - 1 {
        values[first + j] = x >= domain[j + 1];
    }
}

#[test]
fn test_order_encoding_linear_matches_inequality() {
    let dx = vec![1, 2, 3];
    let dy = vec![0, 5];
    for constant in -6..=6 {
        for use_optimize in [false, true] {
            let mut n_sat = 0;
            let mut n_naive = 0;
            for &x in &dx {
                for &y in &dy {
                    let mut values = vec![false; 3];
                    encode(&mut values, 0, &dx, x);
                    encode(&mut values, 2, &dy, y);
                    let terms = vec![
                        LinearTerm::new(vec![lit_of(0), lit_of(1)], dx.clone(), 1),
                        LinearTerm::new(vec![lit_of(2)], dy.clone(), -1),
                    ];
                    let mut constraint = OrderEncodingLinear::new(terms, constant, use_optimize);
                    let mut solver = FixedAssignment { values };
                    let ok = constraint.initialize(&mut solver);
                    let expected = x - y + constant >= 0;
                    assert_eq!(ok, expected, "x = {}, y = {}, constant = {}", x, y, constant);
                    if ok {
                        n_sat += 1;
                    }
                    if expected {
                        n_naive += 1;
                    }
                }
            }
            assert_eq!(n_sat, n_naive);
        }
    }
}

#[test]
fn test_order_encoding_linear_weighted() {
    // 2x + 3y - 7 >= 0 with x, y in {0, 1, 2}
    let d = vec![0, 1, 2];
    for x in 0..3 {
        for y in 0..3 {
            let mut values = vec![false; 4];
            encode(&mut values, 0, &d, x);
            encode(&mut values, 2, &d, y);
            let terms = vec![
                LinearTerm::new(vec![lit_of(0), lit_of(1)], d.clone(), 2),
                LinearTerm::new(vec![lit_of(2), lit_of(3)], d.clone(), 3),
            ];
            let mut constraint = OrderEncodingLinear::new(terms, -7, false);
            let mut solver = FixedAssignment { values };
            assert_eq!(constraint.initialize(&mut solver), 2 * x + 3 * y - 7 >= 0);
        }
    }
}

/// With `x + y >= 3` over `{0, 1, 2}`, learning `x <= 1` forces `y >= 2` and
/// `x >= 1`; the deduction on `y` is explained by `x <= 1`.
#[test]
fn test_order_encoding_linear_propagation_and_reason() {
    let d = vec![0, 1, 2];
    for use_optimize in [false, true] {
        let terms = vec![
            LinearTerm::new(vec![lit_of(0), lit_of(1)], d.clone(), 1),
            LinearTerm::new(vec![lit_of(2), lit_of(3)], d.clone(), 1),
        ];
        let mut constraint = OrderEncodingLinear::new(terms, -3, use_optimize);
        let mut solver = Recorder { enqueued: vec![] };
        assert!(constraint.initialize(&mut solver));
        assert!(solver.enqueued.is_empty());
        // `x >= 2` is false
        assert!(constraint.propagate(&mut solver, Lit(3), 0));
        assert_eq!(solver.enqueued, vec![lit_of(0), lit_of(3)]);
        let reason = constraint.calc_reason(&mut solver, Some(lit_of(3)), None);
        assert_eq!(reason, vec![Lit(3)]);
        // `y >= 1` false as well leaves no way to reach 3
        assert!(!constraint.propagate(&mut solver, Lit(5), 0));
        // taking both back restores the bounds from before
        constraint.undo(&mut solver, Lit(5));
        constraint.undo(&mut solver, Lit(3));
        let mut solver = Recorder { enqueued: vec![] };
        assert!(constraint.propagate(&mut solver, Lit(3), 0));
        assert_eq!(solver.enqueued, vec![lit_of(0), lit_of(3)]);
    }
}
