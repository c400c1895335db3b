use minigrep::{search, search_case_insensitive, search_with_config, Config, MissingArgument};

#[test]
fn one_result() {
    let query = "duct";
    let contents = "Rust:\nsafe, fast, productive.\nPick three.\nDuct tape.";

    assert_eq!(vec!["safe, fast, productive."], search(query, contents));
}

#[test]
fn case_insensitive() {
    let query = "rUsT";
    let contents = "Rust:\nsafe, fast, productive.\nPick three.\nTrust me.";

    assert_eq!(
        vec!["Rust:", "Trust me."],
        search_case_insensitive(query, contents)
    );
}

#[test]
fn empty_contents_yields_no_lines() {
    assert_eq!(Vec::<&str>::new(), search("anything", ""));
    assert_eq!(Vec::<&str>::new(), search_case_insensitive("anything", ""));
    assert_eq!(Vec::<&str>::new(), search("", ""));
    assert_eq!(Vec::<&str>::new(), search_case_insensitive("", ""));
}

#[test]
fn empty_query_matches_every_line() {
    let contents = "first\nsecond\nthird";
    assert_eq!(vec!["first", "second", "third"], search("", contents));
}

#[test]
fn trailing_newline_adds_no_empty_line() {
    assert_eq!(vec!["one", "two"], search("", "one\ntwo\n"));
}

#[test]
fn unterminated_final_line_is_searched() {
    assert_eq!(vec!["Duct tape"], search("tape", "Rust:\nDuct tape"));
}

#[test]
fn no_matching_line_yields_empty_result() {
    let contents = "Rust:\nsafe, fast, productive.\nPick three.";
    assert_eq!(Vec::<&str>::new(), search("zzz", contents));
    assert_eq!(Vec::<&str>::new(), search_case_insensitive("zzz", contents));
}

#[test]
fn query_longer_than_every_line_matches_nothing() {
    assert_eq!(Vec::<&str>::new(), search("abcdef", "abc\nde"));
}

#[test]
fn repeated_search_yields_identical_results() {
    let query = "duct";
    let contents = "Rust:\nsafe, fast, productive.\nPick three.\nDuct tape.";
    assert_eq!(search(query, contents), search(query, contents));
    assert_eq!(
        search_case_insensitive(query, contents),
        search_case_insensitive(query, contents)
    );
}

#[test]
fn uppercase_query_matches_lowercase_line() {
    assert_eq!(
        vec!["trust me"],
        search_case_insensitive("RUST", "trust me\nnothing here")
    );
}

#[test]
fn matching_lines_keep_their_original_casing() {
    assert_eq!(
        vec!["DUCT TAPE", "duct tape"],
        search_case_insensitive("Duct", "DUCT TAPE\nduct tape\nglue")
    );
}

#[test]
fn config_without_arguments_misses_the_query() {
    assert_eq!(Some(MissingArgument::Query), Config::new(vec![], false).err());
    assert_eq!(
        Some(MissingArgument::Query),
        Config::new(vec!["minigrep".to_string()], false).err()
    );
}

#[test]
fn config_with_one_argument_misses_the_file_path() {
    let args = vec!["minigrep".to_string(), "needle".to_string()];
    assert_eq!(Some(MissingArgument::FilePath), Config::new(args, false).err());
}

#[test]
fn config_takes_query_then_file_path() {
    let args = vec![
        "minigrep".to_string(),
        "needle".to_string(),
        "haystack.txt".to_string(),
    ];
    let config = Config::new(args, false).unwrap();
    assert_eq!("needle", config.query);
    assert_eq!("haystack.txt", config.filename);
    assert!(config.case_sensitive);
}

#[test]
fn config_ignores_arguments_past_the_first_two() {
    let args = vec![
        "minigrep".to_string(),
        "needle".to_string(),
        "haystack.txt".to_string(),
        "ignored".to_string(),
    ];
    let config = Config::new(args, false).unwrap();
    assert_eq!("needle", config.query);
    assert_eq!("haystack.txt", config.filename);
}

#[test]
fn environment_flag_disables_case_sensitivity() {
    let args = vec![
        "minigrep".to_string(),
        "needle".to_string(),
        "haystack.txt".to_string(),
    ];
    let config = Config::new(args, true).unwrap();
    assert!(!config.case_sensitive);
}

#[test]
fn search_with_config_respects_case_sensitivity() {
    let contents = "Rust:\nsafe, fast, productive.\nPick three.\nTrust me.";
    let sensitive = Config {
        query: "rUsT".to_string(),
        filename: "unused".to_string(),
        case_sensitive: true,
    };
    let insensitive = Config {
        query: "rUsT".to_string(),
        filename: "unused".to_string(),
        case_sensitive: false,
    };
    assert_eq!(Vec::<&str>::new(), search_with_config(&sensitive, contents));
    assert_eq!(
        vec!["Rust:", "Trust me."],
        search_with_config(&insensitive, contents)
    );
}
