use yarn_lock_analyzer::analyzer::analyze_yarn_lock;
use yarn_lock_analyzer::analyzer::PackageFileAnalyzer;
use yarn_lock_analyzer::analyzer::YarnFileAnalyzer;
use yarn_lock_analyzer::errors::YarnError;
use yarn_lock_analyzer::strutil::concat2;
use yarn_lock_analyzer::strutil::make_tabs;
use yarn_lock_analyzer::strutil::str_contains_sub;
use yarn_lock_analyzer::strutil::str_eq;
use yarn_lock_analyzer::strutil::str_lt;
use yarn_lock_analyzer::util::trim_str;
use yarn_lock_analyzer::util::unquote;
use yarn_lock_analyzer::util::DirectorySearch;

fn lines(ls: &[&str]) -> Vec<String> {
    ls.iter().map(|s| s.to_string()).collect()
}

#[test]
fn unquote_strips_one_surrounding_pair_only() {
    assert_eq!(unquote("\"x@1\""), "x@1");
    assert_eq!(unquote("x@1"), "x@1");
    assert_eq!(unquote("\"x@1"), "\"x@1");
    assert_eq!(unquote("x@1\""), "x@1\"");
    assert_eq!(unquote("\"\"x\"\""), "\"x\"");
    assert_eq!(unquote("\"\""), "");
    assert_eq!(unquote("\""), "\"");
    assert_eq!(unquote(""), "");
}

#[test]
fn trim_str_removes_surrounding_whitespace() {
    assert_eq!(trim_str("  a b  "), "a b");
    assert_eq!(trim_str("\t x \t"), "x");
    assert_eq!(trim_str(""), "");
    assert_eq!(trim_str("   "), "");
    assert_eq!(trim_str("solid"), "solid");
}

#[test]
fn string_comparisons_are_lexicographic() {
    assert!(str_lt("a", "b"));
    assert!(str_lt("a", "ab"));
    assert!(!str_lt("ab", "a"));
    assert!(!str_lt("a", "a"));
    assert!(str_lt("A", "a"));
    assert!(str_eq("same", "same"));
    assert!(!str_eq("same", "same "));
}

#[test]
fn substring_search_matches_anywhere() {
    assert!(str_contains_sub("lodash@^4.0.0", "lodash"));
    assert!(str_contains_sub("has-lodash-inside", "lodash"));
    assert!(str_contains_sub("anything", ""));
    assert!(!str_contains_sub("lo", "lodash"));
    assert!(!str_contains_sub("LODASH", "lodash"));
}

#[test]
fn concat_and_tabs_build_expected_strings() {
    assert_eq!(concat2("a", "b"), "ab");
    assert_eq!(make_tabs(0), "");
    assert_eq!(make_tabs(3), "\t\t\t");
}

#[test]
fn directory_search_excludes_housekeeping_names() {
    let d = DirectorySearch::new();
    assert!(d.is_excluded(".git"));
    assert!(d.is_excluded("node_modules"));
    assert!(d.is_excluded("target"));
    assert!(!d.is_excluded("src"));
    assert!(!d.is_excluded(""));
}

#[test]
fn analyzer_ignores_files_of_other_names() {
    let mut a = PackageFileAnalyzer { keywords: Vec::new() };
    let mut out: Vec<String> = Vec::new();
    let r = a.analyze("package.json", &lines(&["?not a lockfile?"]), &mut out);
    assert!(r.is_ok());
    assert!(out.is_empty());
}

#[test]
fn analyzer_reports_a_lockfile_with_keywords() {
    let mut a = PackageFileAnalyzer { keywords: lines(&["lodash"]) };
    let mut out: Vec<String> = Vec::new();
    let r = a.analyze(
        "yarn.lock",
        &lines(&["a:", "  dependencies:", "    \"lodash\" \"^4.0.0\""]),
        &mut out,
    );
    assert!(r.is_ok());
    assert_eq!(out, vec!["a".to_string(), "\tlodash@^4.0.0".to_string()]);
}

#[test]
fn yarn_file_analyzer_prints_the_full_summary() {
    let mut a = YarnFileAnalyzer;
    let mut out: Vec<String> = Vec::new();
    let r = a.analyze(
        "yarn.lock",
        &lines(&["a:", "  dependencies:", "    \"b\" \"1\""]),
        &mut out,
    );
    assert!(r.is_ok());
    assert_eq!(out, vec!["a:".to_string(), "    b@1".to_string()]);
    let mut out2: Vec<String> = Vec::new();
    assert!(a.analyze("Cargo.toml", &lines(&["?"]), &mut out2).is_ok());
    assert!(out2.is_empty());
}

#[test]
fn analyze_yarn_lock_propagates_parse_failures() {
    let mut out: Vec<String> = Vec::new();
    let r = analyze_yarn_lock(&lines(&["!bad header"]), &Vec::new(), &mut out);
    match r {
        Err(YarnError::MalformedHeaderLine(l)) => assert_eq!(l, "!bad header"),
        _ => panic!("expected MalformedHeaderLine"),
    }
    assert!(out.is_empty());
}

#[test]
fn analyzer_reports_too_deep_with_marker_line() {
    // a parsed lockfile forming a chain of 51 distinct nodes
    let mut content: Vec<String> = Vec::new();
    for i in 1..=51 {
        content.push(format!("x{:03}@1:", i));
        if i < 51 {
            content.push("  dependencies:".to_string());
            content.push(format!("    \"x{:03}\" \"1\"", i + 1));
        }
        content.push(String::new());
    }
    let mut out: Vec<String> = Vec::new();
    let r = analyze_yarn_lock(&content, &lines(&["no-such-keyword"]), &mut out);
    match r {
        Err(YarnError::TooDeep) => {}
        _ => panic!("expected TooDeep"),
    }
    assert_eq!(out, vec![format!("{}... (too deep)", "\t".repeat(50))]);
}

#[test]
fn error_accessors_expose_kind_and_offending_text() {
    let e = YarnError::InvalidPackageToken("bad!".to_string());
    assert!(!e.is_too_deep());
    assert_eq!(e.offending(), Some(&"bad!".to_string()));
    let t = YarnError::TooDeep;
    assert!(t.is_too_deep());
    assert_eq!(t.offending(), None);
}
