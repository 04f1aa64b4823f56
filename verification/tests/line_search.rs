use minigrep::Config;
use minigrep::Line;
use minigrep::lines_to_vec_lines;
use minigrep::search;
use minigrep::search_case_insensitive;

#[test]
fn case_sensitive() {
    let query = "duct";
    let contents = "\
Rust:
safe, fast, productive.
Pick three.
Duct tape.";
    let lines: Vec<Line> = lines_to_vec_lines(contents);

    assert_eq!(
        vec![Line::new("safe, fast, productive.".to_string(), 2)],
        search(query, lines)
    );
}

#[test]
fn case_insensitive() {
    let query = "rUsT";
    let contents = "\
Rust:
safe, fast, productive.
Pick three.
Trust me.";
    let lines: Vec<Line> = lines_to_vec_lines(contents);
    assert_eq!(
        vec![
            Line::new("Rust:".to_string(), 1),
            Line::new("Trust me.".to_string(), 4)
        ],
        search_case_insensitive(query, lines)
    );
}

#[test]
fn empty_content_yields_no_lines() {
    let lines = lines_to_vec_lines("");
    assert!(lines.is_empty());
    assert!(search("anything", lines).is_empty());
    assert!(search_case_insensitive("anything", lines_to_vec_lines("")).is_empty());
    assert!(search("", lines_to_vec_lines("")).is_empty());
}

#[test]
fn empty_query_matches_every_line() {
    let contents = "alpha\nBeta\ngamma";
    let all = lines_to_vec_lines(contents);
    assert_eq!(search("", lines_to_vec_lines(contents)), all);
    assert_eq!(search_case_insensitive("", lines_to_vec_lines(contents)), all);
}

#[test]
fn line_numbers_count_up_from_one() {
    let lines = lines_to_vec_lines("one\ntwo\nthree\n");
    assert_eq!(lines.len(), 3);
    assert_eq!(lines[0], Line::new("one".to_string(), 1));
    assert_eq!(lines[1], Line::new("two".to_string(), 2));
    assert_eq!(lines[2], Line::new("three".to_string(), 3));
}

#[test]
fn trailing_newline_opens_no_extra_line() {
    assert_eq!(lines_to_vec_lines("a\n").len(), 1);
    assert_eq!(lines_to_vec_lines("a").len(), 1);
    assert_eq!(lines_to_vec_lines("a\n\n").len(), 2);
    assert_eq!(lines_to_vec_lines("\n"), vec![Line::new(String::new(), 1)]);
}

#[test]
fn carriage_returns_are_stripped() {
    let lines = lines_to_vec_lines("first\r\nsecond\r\nthird");
    assert_eq!(lines.len(), 3);
    assert_eq!(lines[0].line, "first");
    assert_eq!(lines[1].line, "second");
    assert_eq!(lines[2].line, "third");
}

#[test]
fn bare_final_carriage_return_is_kept() {
    assert_eq!(
        lines_to_vec_lines("baz\r"),
        vec![Line::new("baz\r".to_string(), 1)]
    );
    assert_eq!(
        lines_to_vec_lines("a\r\nb\r"),
        vec![
            Line::new("a".to_string(), 1),
            Line::new("b\r".to_string(), 2)
        ]
    );
}

#[test]
fn join_reproduces_text() {
    let contents = "one\ntwo\nthree";
    let joined: Vec<String> = lines_to_vec_lines(contents)
        .into_iter()
        .map(|l| l.line)
        .collect();
    assert_eq!(joined.join("\n"), contents);

    let with_trailing = "one\ntwo\nthree\n";
    let joined: Vec<String> = lines_to_vec_lines(with_trailing)
        .into_iter()
        .map(|l| l.line)
        .collect();
    assert_eq!(joined.join("\n") + "\n", with_trailing);

    // A carriage return that no newline follows survives the round trip.
    let bare_crs = "one\rtwo\nthree\r";
    let joined: Vec<String> = lines_to_vec_lines(bare_crs)
        .into_iter()
        .map(|l| l.line)
        .collect();
    assert_eq!(joined.join("\n"), bare_crs);
}

#[test]
fn filtering_twice_changes_nothing() {
    let contents = "Rust:\nsafe, fast, productive.\nPick three.\nTrust me.";
    let once = search("st", lines_to_vec_lines(contents));
    let again = search("st", search("st", lines_to_vec_lines(contents)));
    assert_eq!(again, once);

    let once = search_case_insensitive("RU", lines_to_vec_lines(contents));
    let again = search_case_insensitive(
        "RU",
        search_case_insensitive("RU", lines_to_vec_lines(contents)),
    );
    assert_eq!(again, once);
}

#[test]
fn insensitive_result_contains_sensitive_result() {
    let contents = "Rust:\nsafe, fast, productive.\nPick three.\nTrust me.";
    let sensitive = search("rust", lines_to_vec_lines(contents));
    let insensitive = search_case_insensitive("rust", lines_to_vec_lines(contents));
    assert!(sensitive.len() <= insensitive.len());
    for l in &sensitive {
        assert!(insensitive.contains(l));
    }
    assert_eq!(sensitive, vec![Line::new("Trust me.".to_string(), 4)]);
    assert_eq!(
        insensitive,
        vec![
            Line::new("Rust:".to_string(), 1),
            Line::new("Trust me.".to_string(), 4)
        ]
    );
}

#[test]
fn matches_keep_original_casing_and_numbers() {
    let contents = "ALPHA\nbeta\nAlPhA beta";
    let found = search_case_insensitive("alpha", lines_to_vec_lines(contents));
    assert_eq!(
        found,
        vec![
            Line::new("ALPHA".to_string(), 1),
            Line::new("AlPhA beta".to_string(), 3)
        ]
    );
}

#[test]
fn config_from_args() {
    let args = vec!["prog".to_string(), "needle".to_string(), "file.txt".to_string()];
    let config = Config::new(args, false).unwrap();
    assert_eq!(config.query, "needle");
    assert_eq!(config.filename, "file.txt");
    assert!(config.case_sensitive);

    let args = vec!["prog".to_string(), "needle".to_string(), "file.txt".to_string()];
    let config = Config::new(args, true).unwrap();
    assert!(!config.case_sensitive);
}

#[test]
fn config_missing_query() {
    let r = Config::new(vec!["prog".to_string()], false);
    assert_eq!(r.unwrap_err(), "Didn't get a query string");
}

#[test]
fn config_missing_filename() {
    let r = Config::new(vec!["prog".to_string(), "needle".to_string()], false);
    assert_eq!(r.unwrap_err(), "Didn't get a file name");
}

#[test]
fn line_new_sets_fields() {
    let l = Line::new("abc".to_string(), 7);
    assert_eq!(l.line, "abc");
    assert_eq!(l.number, 7);
}
