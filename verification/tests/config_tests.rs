use minigrep::config::{Config, ConfigError};

#[test]
fn build_config() {
    let args = vec![
        String::from("minigrep"),
        String::from("query"),
        String::from("file.txt"),
    ];
    let config = Config::build(args, false).unwrap();
    assert_eq!(config.query, "query");
    assert_eq!(config.file_path, "file.txt");
}

#[test]
fn build_config_not_enough_args() {
    let args = vec![String::from("minigrep")];
    let result = Config::build(args, false);
    assert!(result.is_err());
}

#[test]
fn build_succeeds_with_query_and_file_path() {
    let args = vec![
        String::from("prog"),
        String::from("query"),
        String::from("file.txt"),
    ];
    let config = Config::build(args, false).unwrap();
    assert_eq!(config.query, "query");
    assert_eq!(config.file_path, "file.txt");
    assert!(!config.ignore_case);
}

#[test]
fn build_fails_with_program_name_alone() {
    let args = vec![String::from("prog")];
    assert!(Config::build(args, false).is_err());
}

#[test]
fn build_with_no_args_reports_missing_query() {
    assert_eq!(
        Config::build(Vec::new(), false).unwrap_err(),
        ConfigError::MissingQuery
    );
}

#[test]
fn build_with_query_only_reports_missing_file_path() {
    let args = vec![String::from("prog"), String::from("needle")];
    assert_eq!(
        Config::build(args, false).unwrap_err(),
        ConfigError::MissingFilePath
    );
}

#[test]
fn build_ignores_extra_trailing_args() {
    let args = vec![
        String::from("prog"),
        String::from("needle"),
        String::from("hay.txt"),
        String::from("ignored"),
        String::from("also ignored"),
    ];
    let config = Config::build(args, true).unwrap();
    assert_eq!(config.query, "needle");
    assert_eq!(config.file_path, "hay.txt");
    assert!(config.ignore_case);
}

#[test]
fn build_passes_case_flag_through() {
    let args = vec![
        String::from("prog"),
        String::from("q"),
        String::from("f"),
    ];
    assert!(Config::build(args.clone(), true).unwrap().ignore_case);
    assert!(!Config::build(args, false).unwrap().ignore_case);
}
