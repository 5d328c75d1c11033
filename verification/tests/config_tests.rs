use vernam_otp::config::Config;

#[test]
fn config_getters_return_what_was_given() {
    let config = Config::new(true, false, true, Some(String::from("in.bin")), None);
    assert!(config.import_otp());
    assert!(!config.import_binary());
    assert!(config.statistics());
    assert_eq!(config.input_file(), Some(&String::from("in.bin")));
    assert_eq!(config.output_file(), None);
}

#[test]
fn config_carries_output_file() {
    let config = Config::new(false, true, false, None, Some(String::from("out.bin")));
    assert!(!config.import_otp());
    assert!(config.import_binary());
    assert!(!config.statistics());
    assert_eq!(config.input_file(), None);
    assert_eq!(config.output_file(), Some(&String::from("out.bin")));
}
