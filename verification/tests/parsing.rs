use yarn_lock_analyzer::errors::YarnError;
use yarn_lock_analyzer::parser::parse_dependency_line;
use yarn_lock_analyzer::parser::parse_lockfile;
use yarn_lock_analyzer::parser::start_with_alpha;
use yarn_lock_analyzer::parser::starts_with_package;
use yarn_lock_analyzer::parser::validate_package_name;

fn lines(ls: &[&str]) -> Vec<String> {
    ls.iter().map(|s| s.to_string()).collect()
}

fn summary(ls: &[&str]) -> Vec<String> {
    let g = parse_lockfile(&lines(ls)).expect("parse must succeed");
    let mut out: Vec<String> = Vec::new();
    yarn_lock_analyzer::report::full_summary(&g, &mut out);
    out
}

#[test]
fn quoted_header_records_one_key_and_one_value() {
    // the quoted header token is unquoted; the dependency value is recorded
    // as name@version; the value does not become a key of its own
    let g = parse_lockfile(&lines(&["\"foo@1.0.0\":", "  dependencies:", "    \"bar\" \"^2.0.0\"", ""]))
        .expect("parse must succeed");
    assert_eq!(g.len(), 1);
    assert_eq!(g.key_at(0), "foo@1.0.0");
    assert_eq!(g.deps_at(0), &vec!["bar@^2.0.0".to_string()]);
    assert!(g.get("bar@^2.0.0").is_none());
    assert_eq!(
        summary(&["\"foo@1.0.0\":", "  dependencies:", "    \"bar\" \"^2.0.0\"", ""]),
        vec!["foo@1.0.0:".to_string(), "    bar@^2.0.0".to_string()]
    );
}

#[test]
fn multi_token_header_shares_the_dependency() {
    let g = parse_lockfile(&lines(&["a@1.0.0, a@1.0.1:", "  dependencies:", "    \"b\" \"^1.0.0\""]))
        .expect("parse must succeed");
    assert_eq!(g.len(), 2);
    assert_eq!(g.get("a@1.0.0"), Some(&vec!["b@^1.0.0".to_string()]));
    assert_eq!(g.get("a@1.0.1"), Some(&vec!["b@^1.0.0".to_string()]));
}

#[test]
fn optional_dependencies_directly_after_dependencies_is_empty_set() {
    let g = parse_lockfile(&lines(&["a:", "  dependencies:", "  optionalDependencies:"]))
        .expect("parse must succeed");
    assert_eq!(g.len(), 1);
    assert_eq!(g.get("a"), Some(&Vec::new()));
}

#[test]
fn optional_dependencies_are_not_recorded() {
    let g = parse_lockfile(&lines(&[
        "a:",
        "  dependencies:",
        "    \"b\" \"1\"",
        "  optionalDependencies:",
        "    \"c\" \"2\"",
    ]))
    .expect("parse must succeed");
    assert_eq!(g.get("a"), Some(&vec!["b@1".to_string()]));
}

#[test]
fn missing_closing_quote_is_malformed_dependency_line() {
    let r = parse_lockfile(&lines(&["a:", "  dependencies:", "    \"bar\" \"^2.0.0"]));
    match r {
        Err(YarnError::MalformedDependencyLine(l)) => assert_eq!(l, "    \"bar\" \"^2.0.0"),
        _ => panic!("expected MalformedDependencyLine"),
    }
}

#[test]
fn unknown_top_level_line_is_malformed_header() {
    let r = parse_lockfile(&lines(&["a:", "", "?what"]));
    match r {
        Err(YarnError::MalformedHeaderLine(l)) => assert_eq!(l, "?what"),
        _ => panic!("expected MalformedHeaderLine"),
    }
}

#[test]
fn invalid_header_token_is_reported() {
    let r = parse_lockfile(&lines(&["foo!:"]));
    match r {
        Err(YarnError::InvalidPackageToken(t)) => assert_eq!(t, "foo!"),
        _ => panic!("expected InvalidPackageToken"),
    }
}

#[test]
fn blank_and_comment_lines_reset_the_section() {
    // the comment ends the package section; the dependency-shaped line after
    // it is space-led in the global section and ignored
    let g = parse_lockfile(&lines(&[
        "# a yarn lockfile",
        "",
        "a:",
        "# interrupting comment",
        "    \"b\" \"1\"",
        "",
        "b:",
        "  dependencies:",
        "    \"c\" \"3\"",
    ]))
    .expect("parse must succeed");
    assert_eq!(g.get("a"), Some(&Vec::new()));
    assert_eq!(g.get("b"), Some(&vec!["c@3".to_string()]));
}

#[test]
fn metadata_lines_in_package_section_are_ignored() {
    let g = parse_lockfile(&lines(&[
        "a:",
        "  version \"1.0.0\"",
        "  resolved \"https://example.invalid/a.tgz\"",
        "  dependencies:",
        "    \"b\" \"1\"",
    ]))
    .expect("parse must succeed");
    assert_eq!(g.get("a"), Some(&vec!["b@1".to_string()]));
}

#[test]
fn trailing_colons_are_all_stripped_but_inner_colons_stay() {
    let g = parse_lockfile(&lines(&["a:b::"])).expect("parse must succeed");
    assert_eq!(g.len(), 1);
    assert_eq!(g.key_at(0), "a:b");
}

#[test]
fn header_pieces_are_trimmed_and_unquoted() {
    let g = parse_lockfile(&lines(&["  \"x@1\" ,  y@2:"])).expect("parse must succeed");
    // a space-led header line is ignored in the global section, so indent the
    // pieces, not the line: use an unindented line instead
    assert_eq!(g.len(), 0);
    let g = parse_lockfile(&lines(&["\"x@1\" ,  y@2:"])).expect("parse must succeed");
    assert_eq!(g.len(), 2);
    assert_eq!(g.key_at(0), "x@1");
    assert_eq!(g.key_at(1), "y@2");
}

#[test]
fn duplicate_dependency_values_are_deduplicated() {
    let g = parse_lockfile(&lines(&[
        "a:",
        "  dependencies:",
        "    \"b\" \"1\"",
        "    \"b\" \"1\"",
    ]))
    .expect("parse must succeed");
    assert_eq!(g.get("a"), Some(&vec!["b@1".to_string()]));
}

#[test]
fn redeclared_header_extends_the_same_key() {
    let g = parse_lockfile(&lines(&[
        "a:",
        "  dependencies:",
        "    \"b\" \"1\"",
        "",
        "a:",
        "  dependencies:",
        "    \"c\" \"2\"",
    ]))
    .expect("parse must succeed");
    assert_eq!(g.len(), 1);
    assert_eq!(g.get("a"), Some(&vec!["b@1".to_string(), "c@2".to_string()]));
}

#[test]
fn parse_dependency_line_accepts_quoted_and_bare_names() {
    assert_eq!(
        parse_dependency_line("    \"bar\" \"^2.0.0\"").unwrap(),
        ("bar".to_string(), "^2.0.0".to_string())
    );
    assert_eq!(
        parse_dependency_line("    bar \"^2.0.0\"").unwrap(),
        ("bar".to_string(), "^2.0.0".to_string())
    );
    assert_eq!(
        parse_dependency_line("    @scope/pkg \"1.2.3\"").unwrap(),
        ("@scope/pkg".to_string(), "1.2.3".to_string())
    );
    // the version is everything up to the final quote, quotes included
    assert_eq!(
        parse_dependency_line("    \"a\" \"b\"c\"").unwrap(),
        ("a".to_string(), "b\"c".to_string())
    );
}

#[test]
fn parse_dependency_line_rejects_bad_shapes() {
    assert!(parse_dependency_line("   \"bar\" \"1\"").is_err()); // three spaces
    assert!(parse_dependency_line("     \"bar\" \"1\"").is_err()); // five spaces
    assert!(parse_dependency_line("    \"\" \"1\"").is_err()); // empty name
    assert!(parse_dependency_line("    \"bar\" \"\"").is_err()); // empty version
    assert!(parse_dependency_line("    \"bar\"  \"1\"").is_err()); // two separating spaces
    assert!(parse_dependency_line("    \"bar\"").is_err()); // no version
}

#[test]
fn validate_package_name_follows_the_character_set() {
    assert!(validate_package_name("lodash@^4.0.0"));
    assert!(validate_package_name("@scope/pkg@>=1.0.0 <2.0.0"));
    assert!(validate_package_name("\"quoted@1\""));
    assert!(validate_package_name("\"half-open@1"));
    assert!(!validate_package_name(""));
    assert!(!validate_package_name("\""));
    assert!(!validate_package_name("\"\""));
    assert!(!validate_package_name("bad!name"));
}

#[test]
fn start_with_alpha_checks_the_first_character() {
    assert!(start_with_alpha("abc"));
    assert!(start_with_alpha("Zoo"));
    assert!(!start_with_alpha("1abc"));
    assert!(!start_with_alpha("@scope"));
    assert!(!start_with_alpha(""));
    assert!(starts_with_package("lodash@^4.0.0:"));
    assert!(!starts_with_package("  indented"));
}

#[test]
fn dependency_values_declared_as_headers_are_keys() {
    // every dependency value of this file also occurs as a header token, so
    // after parsing no reference dangles: each value is a key of the graph
    let g = parse_lockfile(&lines(&[
        "a@1:",
        "  dependencies:",
        "    \"b\" \"2\"",
        "",
        "b@2:",
        "  dependencies:",
        "    \"c\" \"3\"",
        "",
        "c@3:",
    ]))
    .expect("parse must succeed");
    for i in 0..g.len() {
        let deps = g.deps_at(i).clone();
        for d in &deps {
            assert!(g.get(d).is_some(), "dangling reference {}", d);
        }
    }
}

#[test]
fn empty_input_yields_empty_graph() {
    let g = parse_lockfile(&Vec::new()).expect("parse must succeed");
    assert_eq!(g.len(), 0);
}
