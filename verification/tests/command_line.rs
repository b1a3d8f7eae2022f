use cspuz::command_line::{config_from_args, config_from_matches, CommandLineError};
use cspuz::config::{Config, ConfigArgError};
use cspuz::sat::{Backend, OrderEncodingLinearMode};

fn args(items: &[&str]) -> Vec<String> {
    items.iter().map(|s| s.to_string()).collect()
}

#[test]
fn test_command_line_defaults() {
    let r = config_from_args(Config::initial_default(), &args(&[]));
    assert_eq!(r.unwrap(), Some(Config::initial_default()));
}

#[test]
fn test_command_line_help() {
    assert!(matches!(config_from_args(Config::initial_default(), &args(&["-h"])), Ok(None)));
    assert!(matches!(
        config_from_args(Config::initial_default(), &args(&["--verbose", "--help"])),
        Err(CommandLineError::Malformed(_))
    ));
    assert!(matches!(
        config_from_args(Config::initial_default(), &args(&["--enable-verbose", "--help"])),
        Ok(None)
    ));
}

#[test]
fn test_command_line_flags_and_values() {
    let r = config_from_args(
        Config::initial_default(),
        &args(&[
            "--disable-use-constant-folding",
            "--enable-verbose",
            "--domain-product-threshold",
            "50",
            "--backend=cadical",
            "--order-encoding-linear-mode",
            "rust-optimized",
        ]),
    )
    .unwrap()
    .unwrap();
    assert!(!r.use_constant_folding);
    assert!(r.verbose);
    assert!(r.use_constant_propagation);
    assert_eq!(r.domain_product_threshold, 50);
    assert_eq!(r.native_linear_encoding_terms, 4);
    assert_eq!(r.backend, Backend::CaDiCaL);
    assert_eq!(r.order_encoding_linear_mode, OrderEncodingLinearMode::RustOptimized);
}

#[test]
fn test_command_line_errors() {
    let base = Config::initial_default();
    match config_from_args(
        base,
        &args(&["--enable-use-log-encoding", "--disable-use-log-encoding"]),
    ) {
        Err(CommandLineError::Invalid(ConfigArgError::ConflictingOptions(4), None)) => {}
        other => panic!("unexpected {:?}", other),
    }
    match config_from_args(base, &args(&["--native-linear-encoding-terms", "x1"])) {
        Err(CommandLineError::Invalid(ConfigArgError::ParseFailed(1), Some(v))) => {
            assert_eq!(v, vec!['x', '1'])
        }
        other => panic!("unexpected {:?}", other),
    }
    match config_from_args(base, &args(&["--backend", "minisat"])) {
        Err(CommandLineError::Invalid(ConfigArgError::UnknownBackend, Some(v))) => {
            assert_eq!(v.into_iter().collect::<String>(), "minisat")
        }
        other => panic!("unexpected {:?}", other),
    }
    match config_from_args(base, &args(&["--order-encoding-linear-mode", "fast"])) {
        Err(CommandLineError::Invalid(ConfigArgError::UnknownLinearMode, Some(v))) => {
            assert_eq!(v.into_iter().collect::<String>(), "fast")
        }
        other => panic!("unexpected {:?}", other),
    }
    match config_from_args(base, &args(&["--no-such-option"])) {
        Err(CommandLineError::Malformed(m)) => assert!(m.contains("no-such-option")),
        other => panic!("unexpected {:?}", other),
    }
    match config_from_args(base, &args(&["--backend"])) {
        Err(CommandLineError::Malformed(m)) => assert!(m.contains("backend")),
        other => panic!("unexpected {:?}", other),
    }
}

#[test]
fn test_config_from_matches() {
    let base = Config::initial_default();
    let mut present = vec![false; 29];
    let none: Vec<Option<String>> = vec![None, None, None, None, None];
    present[1] = true;
    let c = config_from_matches(base, &present, &none).unwrap().unwrap();
    assert!(!c.use_constant_folding);
    present[28] = true;
    assert!(matches!(config_from_matches(base, &present, &none), Ok(None)));
    let present = vec![false; 29];
    let values = vec![None, None, Some("7".to_string()), None, Some("rust".to_string())];
    let c = config_from_matches(base, &present, &values).unwrap().unwrap();
    assert_eq!(c.native_linear_encoding_domain_product_threshold, 7);
    assert_eq!(c.order_encoding_linear_mode, OrderEncodingLinearMode::Rust);
}
