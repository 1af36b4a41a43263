use fgit_core::ignore::{parse_size, parse_size_checked, IgnoreRule, IgnoreRules};

#[test]
fn test_glob_pattern() {
    let rules = IgnoreRules::parse("*.log\ntarget/\n");
    assert!(rules.is_ignored("error.log", None));
    assert!(rules.is_ignored("target/debug/main", None));
    assert!(!rules.is_ignored("src/main.rs", None));
}

#[test]
fn test_negation() {
    let rules = IgnoreRules::parse("*.log\n!important.log\n");
    assert!(rules.is_ignored("debug.log", None));
    assert!(!rules.is_ignored("important.log", None));
}

#[test]
fn test_regex_pattern() {
    let rules = IgnoreRules::parse("regex:^test_.*\\.tmp$\n");
    assert!(rules.is_ignored("test_output.tmp", None));
    assert!(!rules.is_ignored("production.tmp", None));
}

#[test]
fn test_size_filter() {
    let rules = IgnoreRules::parse("size:>10mb\n");
    let big = Some(20 * 1024 * 1024);
    let small = Some(5 * 1024 * 1024);
    assert!(rules.is_ignored("big_file.bin", big));
    assert!(!rules.is_ignored("small_file.txt", small));
}

#[test]
fn test_sections_are_parsed() {
    let content = "[build]\ntarget/\n*.o\n\n[deps]\nnode_modules/\n";
    let rules = IgnoreRules::parse(content);
    assert_eq!(rules.rules.len(), 3);
    assert_eq!(rules.rules[0].section, Some("build".to_string()));
    assert_eq!(rules.rules[1].section, Some("build".to_string()));
    assert_eq!(rules.rules[2].section, Some("deps".to_string()));
}

#[test]
fn test_comments_and_empty_lines() {
    let content = "# This is a comment\n\n*.log\n  # Another comment\n";
    let rules = IgnoreRules::parse(content);
    assert_eq!(rules.rules.len(), 1);
}

#[test]
fn test_parse_size_units() {
    assert_eq!(parse_size("10mb"), Some(10 * 1024 * 1024));
    assert_eq!(parse_size("500kb"), Some(500 * 1024));
    assert_eq!(parse_size("1gb"), Some(1024 * 1024 * 1024));
    assert_eq!(parse_size("1024b"), Some(1024));
}

#[test]
fn test_directory_pattern_matching() {
    let rules = IgnoreRules::parse("node_modules/\n");
    assert!(rules.is_ignored("node_modules/express/index.js", None));
    assert!(!rules.is_ignored("my_modules/test.js", None));
}

#[test]
fn parse_size_forms() {
    assert_eq!(parse_size(" 2 KB "), Some(2048));
    assert_eq!(parse_size("4096"), Some(4096));
    assert_eq!(parse_size("+7b"), Some(7));
    assert_eq!(parse_size("ten mb"), None);
    assert_eq!(parse_size("-1kb"), None);
    assert_eq!(parse_size(""), None);
}

#[test]
fn size_limit_checks() {
    assert!(IgnoreRules::sizes_fit("size:>10mb\n*.o\n"));
    assert!(!IgnoreRules::sizes_fit("size:>99999999999gb\n"));
    assert!(IgnoreRules::sizes_fit("# size:>99999999999gb\n"));
}

#[test]
fn rule_kinds_and_invalid_regex() {
    let rules = IgnoreRules::parse("regex:!^keep\nregex:(\n!*.txt\nsize:>junk\n");
    assert_eq!(rules.rules.len(), 2);
    match &rules.rules[0].rule {
        IgnoreRule::Regex { pattern, negated } => {
            assert_eq!(pattern, "^keep");
            assert!(*negated);
        }
        _ => panic!("expected a regex rule"),
    }
    match &rules.rules[1].rule {
        IgnoreRule::Glob { pattern, negated } => {
            assert_eq!(pattern, "*.txt");
            assert!(*negated);
        }
        _ => panic!("expected a glob rule"),
    }
    assert_eq!(rules.rules[0].section, None);
}

#[test]
fn later_rules_win() {
    let rules = IgnoreRules::parse("!a.log\n*.log\n");
    assert!(rules.is_ignored("a.log", None));
    let rules = IgnoreRules::parse("*.log\nregex:!^a\n");
    assert!(!rules.is_ignored("a.log", None));
    assert!(rules.is_ignored("b.log", None));
    assert!(!IgnoreRules::empty().is_ignored("anything", Some(u64::MAX)));
}

#[test]
fn glob_special_characters() {
    let rules = IgnoreRules::parse("src/**/gen?.rs\ndata+[1].csv\n");
    assert!(rules.is_ignored("src/a/b/gen1.rs", None));
    assert!(rules.is_ignored("src/gen2.rs", None));
    assert!(!rules.is_ignored("src/gen10.rs", None));
    assert!(rules.is_ignored("data+[1].csv", None));
    assert!(!rules.is_ignored("data1.csv", None));
}

#[test]
fn checked_parsing() {
    assert_eq!(parse_size_checked("10MB"), Some(Some(10 * 1024 * 1024)));
    assert_eq!(parse_size_checked("lots"), Some(None));
    assert_eq!(parse_size_checked("99999999999999gb"), None);
    assert!(IgnoreRules::parse_checked("size:>99999999999999gb\n").is_none());
    let rules = IgnoreRules::parse_checked("*.log\nsize:>1kb\n").unwrap();
    assert!(rules.is_ignored("a.log", None));
    assert!(rules.is_ignored("big.bin", Some(2048)));
    assert!(!rules.is_ignored("small.bin", Some(10)));
}
