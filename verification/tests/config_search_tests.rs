use minigrep::config::Config;
use minigrep::search::search_with_config;

#[test]
fn config_selects_case_sensitive_search() {
    let args = vec![
        String::from("prog"),
        String::from("DUcT"),
        String::from("file.txt"),
    ];
    let config = Config::build(args, false).unwrap();
    let contents = "Rust:\nsafe, fast, productive.\nPick three.";
    assert!(search_with_config(&config, contents).is_empty());
}

#[test]
fn config_selects_case_insensitive_search() {
    let args = vec![
        String::from("prog"),
        String::from("DUcT"),
        String::from("file.txt"),
    ];
    let config = Config::build(args, true).unwrap();
    let contents = "Rust:\nsafe, fast, productive.\nPick three.";
    assert_eq!(
        vec!["safe, fast, productive."],
        search_with_config(&config, contents)
    );
}
