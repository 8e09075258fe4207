use password_crack::Arguments;
use password_crack::Errors;
use password_crack::Mode;
use password_crack::validate_arguments;

fn base_arguments() -> Arguments {
    Arguments {
        input_file: "t.zip".to_string(),
        workers: Some(2),
        charsets: vec!['0', '1'],
        min_password_len: 1,
        max_password_len: 4,
        password_dictionary: None,
        custom_chars: Vec::new(),
    }
}

#[test]
fn valid_arguments_pass() {
    assert!(validate_arguments(&base_arguments()).is_ok());
    let mut defaulted = base_arguments();
    defaulted.workers = None;
    assert!(validate_arguments(&defaulted).is_ok());
}

#[test]
fn zero_lengths_and_workers_rejected() {
    let mut a = base_arguments();
    a.min_password_len = 0;
    assert!(matches!(validate_arguments(&a), Err(Errors::CliArgumentError { .. })));

    let mut b = base_arguments();
    b.max_password_len = 0;
    assert!(matches!(validate_arguments(&b), Err(Errors::CliArgumentError { .. })));

    let mut c = base_arguments();
    c.workers = Some(0);
    assert!(matches!(validate_arguments(&c), Err(Errors::CliArgumentError { .. })));

    let mut d = base_arguments();
    d.min_password_len = 5;
    d.max_password_len = 4;
    assert!(matches!(validate_arguments(&d), Err(Errors::CliArgumentError { .. })));
}

#[test]
fn modes_are_distinct() {
    assert_ne!(Mode::PasswordDictionary, Mode::Generation);
    assert_ne!(Mode::Generation, Mode::Custom);
    let err = Errors::invalid_zip_error("bad".to_string());
    assert_eq!(err.message(), "bad");
    assert!(matches!(err, Errors::InvalidZip { .. }));
}
