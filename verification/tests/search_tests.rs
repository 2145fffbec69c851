use minigrep::search::{search, search_case_insensitive};

#[test]
fn one_result() {
    let query = "duct";
    let contents = "\
Rust:
safe, fast, productive.
Pick three.";
    assert_eq!(vec!["safe, fast, productive."], search(query, contents));
}

#[test]
fn case_insensitive_search() {
    let query = "DUcT";
    let contents = "\
Rust:
safe, fast, productive.
Pick three.";
    assert_eq!(
        vec!["safe, fast, productive."],
        search_case_insensitive(query, contents)
    );
}

#[test]
fn empty_contents_gives_no_lines() {
    assert!(search("anything", "").is_empty());
    assert!(search_case_insensitive("anything", "").is_empty());
}

#[test]
fn empty_query_matches_every_line() {
    let contents = "first\nsecond\nthird";
    assert_eq!(vec!["first", "second", "third"], search("", contents));
}

#[test]
fn query_longer_than_every_line_matches_nothing() {
    let contents = "ab\ncd";
    assert!(search("abcde", contents).is_empty());
    assert!(search_case_insensitive("ABCDE", contents).is_empty());
}

#[test]
fn no_match_is_empty_not_an_error() {
    let contents = "alpha\nbeta";
    assert!(search("gamma", contents).is_empty());
}

#[test]
fn insensitive_result_includes_sensitive_result() {
    let contents = "Duct tape\nDUCT TAPE\nnothing here";
    let sensitive = search("Duct", contents);
    let insensitive = search_case_insensitive("Duct", contents);
    assert_eq!(vec!["Duct tape"], sensitive);
    assert_eq!(vec!["Duct tape", "DUCT TAPE"], insensitive);
    for line in &sensitive {
        assert!(insensitive.contains(line));
    }
}

#[test]
fn repeated_runs_give_identical_results() {
    let contents = "Rust:\nsafe, fast, productive.\nPick three.";
    assert_eq!(search("duct", contents), search("duct", contents));
    assert_eq!(
        search_case_insensitive("DUcT", contents),
        search_case_insensitive("DUcT", contents)
    );
}

#[test]
fn trailing_newline_adds_no_empty_line() {
    assert_eq!(vec!["one", "two"], search("", "one\ntwo\n"));
}

#[test]
fn blank_line_between_lines_is_kept() {
    assert_eq!(vec!["one", "", "two"], search("", "one\n\ntwo"));
}

#[test]
fn carriage_return_before_line_feed_is_stripped() {
    assert_eq!(vec!["one", "two"], search("", "one\r\ntwo\r\n"));
    assert_eq!(vec!["one"], search("one", "one\r\ntwo"));
}

#[test]
fn lone_carriage_return_stays_in_the_line() {
    assert_eq!(vec!["a\rb"], search("", "a\rb"));
}

#[test]
fn matches_keep_source_order() {
    let contents = "b first\na second\nb third";
    assert_eq!(vec!["b first", "b third"], search("b ", contents));
}

#[test]
fn insensitive_search_keeps_original_case() {
    let contents = "MiXeD CaSe LiNe";
    assert_eq!(
        vec!["MiXeD CaSe LiNe"],
        search_case_insensitive("mixed case", contents)
    );
}

#[test]
fn insensitive_search_handles_non_ascii_letters() {
    let contents = "BÄR\nbär\nboot";
    assert_eq!(
        vec!["BÄR", "bär"],
        search_case_insensitive("bär", contents)
    );
}
