use cspuz::encoder::direct::encode_var_direct_domain;
use cspuz::encoder::order::encode_var_order_domain;
use cspuz::sat::{Lit, SAT};

/// Every model of the instance, as the values of `lits`.
fn all_models(sat: &mut SAT, lits: &[Lit]) -> Vec<Vec<bool>> {
    let mut models = vec![];
    while let Some(model) = sat.solve() {
        let values = lits.iter().map(|&l| model.assignment_lit(l)).collect::<Vec<_>>();
        let blocking = lits
            .iter()
            .zip(values.iter())
            .map(|(&l, &v)| if v { l.negate() } else { l })
            .collect::<Vec<_>>();
        models.push(values);
        sat.add_clause(&blocking);
    }
    models.sort();
    models
}

/// The order-encoding literals of a variable hold exactly on a prefix, one
/// model per value.
#[test]
fn test_order_encoding_models_are_prefixes() {
    let mut sat = SAT::new();
    let enc = encode_var_order_domain(&mut sat, vec![1, 3, 5, 8]);
    assert_eq!(enc.lits.len(), 3);
    let models = all_models(&mut sat, &enc.lits);
    assert_eq!(
        models,
        vec![
            vec![false, false, false],
            vec![true, false, false],
            vec![true, true, false],
            vec![true, true, true],
        ]
    );
}

/// Exactly one direct-encoding literal of a variable holds, one model per value.
#[test]
fn test_direct_encoding_models_have_one_literal() {
    let mut sat = SAT::new();
    let enc = encode_var_direct_domain(&mut sat, vec![2, 4, 6]);
    assert_eq!(enc.lits.len(), 3);
    let models = all_models(&mut sat, &enc.lits);
    assert_eq!(
        models,
        vec![
            vec![false, false, true],
            vec![false, true, false],
            vec![true, false, false],
        ]
    );
}
