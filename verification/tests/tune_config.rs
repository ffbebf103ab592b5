use lattice::tuner::{validate_config, TuneError};

#[test]
fn config_checks_report_the_first_failure() {
    assert!(validate_config(10, true, 3, 2).is_ok());
    let message = |r: Result<(), TuneError>| r.err().map(|e| e.message().clone());
    assert_eq!(message(validate_config(0, false, 0, 0)).as_deref(), Some("epochs must be greater than zero"));
    assert_eq!(
        message(validate_config(1, false, 0, 0)).as_deref(),
        Some("learning rate must be finite and positive")
    );
    assert_eq!(message(validate_config(1, true, 0, 0)).as_deref(), Some("patience must be greater than zero"));
    assert_eq!(message(validate_config(1, true, 1, 0)).as_deref(), Some("threads must be greater than zero"));
    assert_eq!(TuneError::new("disk full".to_owned()).message(), "disk full");
}
