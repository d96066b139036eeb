use rust_ingest::rules::{
    build_rule_set, compile_overrides, ignored_dirs, ignored_files, override_lines, RuleError,
};
use rust_ingest::settings::Settings;

fn strings(items: &[&str]) -> Vec<String> {
    items.iter().map(|s| s.to_string()).collect()
}

fn settings(output: &str, excludes: &[&str], includes: &[&str]) -> Settings {
    let mut settings = Settings::default();
    settings.output = output.to_string();
    settings.exclude_patterns = strings(excludes);
    settings.include_patterns = strings(includes);
    settings
}

const BUILT_IN: [&str; 32] = [
    "!.git/",
    "!.github/",
    "!.vscode/",
    "!.idea/",
    "!venv/",
    "!.env/",
    "!node_modules/",
    "!.next/",
    "!out/",
    "!__pycache__/",
    "!target/",
    "!pkg/",
    "!build/",
    "!dist/",
    "!coverage/",
    "!pnpm-lock.yaml",
    "!package-lock.json",
    "!yarn.lock",
    "!Cargo.lock",
    "!.tsbuildinfo",
    "!.DS_Store",
    "!components.json",
    "!biome.json",
    "!next-env.d.ts",
    "!.gitignore",
    "!.prettierrc.json",
    "!LICENSE",
    "!.nvmrc",
    "!.npmrc",
    "!.eslintrc.json",
    "!.prettierignore",
    "!vercel.json",
];

#[test]
fn built_in_directories() {
    assert_eq!(
        ignored_dirs(),
        strings(&[
            ".git/", ".github/", ".vscode/", ".idea/", "venv/", ".env/", "node_modules/",
            ".next/", "out/", "__pycache__/", "target/", "pkg/", "build/", "dist/", "coverage/",
        ])
    );
}

#[test]
fn built_in_files() {
    assert_eq!(
        ignored_files(),
        strings(&[
            "pnpm-lock.yaml", "package-lock.json", "yarn.lock", "Cargo.lock", ".tsbuildinfo",
            ".DS_Store", "components.json", "biome.json", "next-env.d.ts", ".gitignore",
            ".prettierrc.json", "LICENSE", ".nvmrc", ".npmrc", ".eslintrc.json",
            ".prettierignore", "vercel.json",
        ])
    );
}

#[test]
fn lines_without_user_patterns() {
    let lines = override_lines("digest.txt", &vec![], &vec![]);
    let mut expected = strings(&BUILT_IN);
    expected.push("!digest.txt".to_string());
    assert_eq!(lines, expected);
}

#[test]
fn lines_keep_the_order_of_the_rule_set() {
    let lines = override_lines(
        "out.md",
        &strings(&["*.log", "tmp/"]),
        &strings(&["*.rs", "docs/**"]),
    );
    let mut expected = strings(&["*.rs", "docs/**"]);
    expected.extend(strings(&BUILT_IN));
    expected.extend(strings(&["!out.md", "!*.log", "!tmp/"]));
    assert_eq!(lines, expected);
}

#[test]
fn output_file_is_excluded_right_behind_the_built_in_lines() {
    for output in ["digest.txt", "x", "", "weird name.out"] {
        let lines = override_lines(output, &strings(&["a"]), &strings(&["b", "c"]));
        assert_eq!(lines.len(), 36);
        assert_eq!(lines[2 + 32], format!("!{}", output));
    }
}

#[test]
fn every_line_behind_the_includes_excludes() {
    let lines = override_lines("digest.txt", &strings(&["*.log"]), &strings(&["*.rs", "*.md"]));
    assert_eq!(&lines[..2], &strings(&["*.rs", "*.md"])[..]);
    for line in &lines[2..] {
        assert!(line.starts_with('!'), "{}", line);
    }
}

#[test]
fn default_rules_leave_source_files_undecided() {
    let ov = build_rule_set("/home/user/project", &Settings::default()).unwrap();
    assert!(ov.matched("src/main.rs", false).is_none());
    assert!(ov.matched("notes.txt", false).is_none());
    assert!(ov.matched("src", true).is_none());
}

#[test]
fn default_rules_exclude_built_in_directories_and_files() {
    let ov = build_rule_set("/home/user/project", &Settings::default()).unwrap();
    assert!(ov.matched("target", true).is_ignore());
    assert!(ov.matched("node_modules", true).is_ignore());
    assert!(ov.matched("sub/dir/.git", true).is_ignore());
    assert!(ov.matched("Cargo.lock", false).is_ignore());
    assert!(ov.matched("web/package-lock.json", false).is_ignore());
    assert!(ov.matched("LICENSE", false).is_ignore());
    // a directory pattern does not match a file of that name
    assert!(ov.matched("target", false).is_none());
}

#[test]
fn output_file_is_excluded() {
    let ov = build_rule_set("/home/user/project", &Settings::default()).unwrap();
    assert!(ov.matched("digest.txt", false).is_ignore());
    let ov = build_rule_set("/home/user/project", &settings("summary.md", &[], &[])).unwrap();
    assert!(ov.matched("summary.md", false).is_ignore());
    assert!(ov.matched("digest.txt", false).is_none());
}

#[test]
fn output_file_stays_excluded_when_an_include_matches_it() {
    let ov = build_rule_set("/r", &settings("digest.txt", &[], &["*.txt"])).unwrap();
    assert!(ov.matched("notes.txt", false).is_whitelist());
    assert!(ov.matched("digest.txt", false).is_ignore());
    let ov = build_rule_set("/r", &settings("digest.txt", &[], &["digest.txt"])).unwrap();
    assert!(ov.matched("digest.txt", false).is_ignore());
}

#[test]
fn excludes_take_precedence_over_includes() {
    let ov = build_rule_set("/r", &settings("digest.txt", &["gen_*.rs"], &["*.rs", "*.lock"]))
        .unwrap();
    assert!(ov.matched("main.rs", false).is_whitelist());
    assert!(ov.matched("gen_parser.rs", false).is_ignore());
    assert!(ov.matched("yarn.lock", false).is_ignore());
    assert!(ov.matched("Cargo.lock", false).is_ignore());
    assert!(ov.matched("other.lock", false).is_whitelist());
}

#[test]
fn user_excludes_are_excluded() {
    let ov = build_rule_set("/r", &settings("digest.txt", &["*.log", "tmp/"], &[])).unwrap();
    assert!(ov.matched("debug.log", false).is_ignore());
    assert!(ov.matched("a/b/c.log", false).is_ignore());
    assert!(ov.matched("tmp", true).is_ignore());
    assert!(ov.matched("main.rs", false).is_none());
}

#[test]
fn include_patterns_leave_only_what_matches() {
    let ov = build_rule_set("/r", &settings("digest.txt", &[], &["*.rs"])).unwrap();
    assert!(ov.matched("a.rs", false).is_whitelist());
    assert!(ov.matched("b.txt", false).is_ignore());
    assert!(ov.matched("src/lib.rs", false).is_whitelist());
    // directories stay open so that the walk can go into them
    assert!(ov.matched("src", true).is_none());
    assert!(ov.matched("target", true).is_ignore());
}

#[test]
fn matcher_holds_one_glob_per_line() {
    let ov =
        build_rule_set("/r", &settings("digest.txt", &["*.log"], &["*.rs", "*.md"])).unwrap();
    assert_eq!(ov.num_ignores(), 34);
    assert_eq!(ov.num_whitelists(), 2);
}

#[test]
fn comments_and_blank_lines_are_taken_and_add_nothing() {
    let ov = compile_overrides("/r", &strings(&["# a comment", "", "   ", "!*.log"])).unwrap();
    assert_eq!(ov.num_ignores(), 1);
    assert_eq!(ov.num_whitelists(), 0);
    assert!(ov.matched("x.log", false).is_ignore());
    assert!(ov.matched("# a comment", false).is_none());
}

#[test]
fn no_lines_give_an_empty_matcher() {
    let ov = compile_overrides("/r", &vec![]).unwrap();
    assert!(ov.is_empty());
    assert!(ov.matched("anything", false).is_none());
}

#[test]
fn malformed_glob_is_reported_with_its_line() {
    let result = build_rule_set("/r", &settings("digest.txt", &["a[b"], &[]));
    match result {
        Err(RuleError::InvalidGlob { index, line, reason }) => {
            assert_eq!(index, 33);
            assert_eq!(line, "!a[b");
            assert!(reason.contains("a[b"), "{}", reason);
        }
        other => panic!("unexpected: {:?}", other),
    }
}

#[test]
fn malformed_include_pattern_is_reported() {
    let result = build_rule_set("/r", &settings("digest.txt", &["*.log"], &["*.rs", "{a,b"]));
    match result {
        Err(RuleError::InvalidGlob { index, line, .. }) => {
            assert_eq!(index, 1);
            assert_eq!(line, "{a,b");
        }
        other => panic!("unexpected: {:?}", other),
    }
}

#[test]
fn the_first_malformed_line_ends_the_work() {
    let lines = strings(&["*.rs", "bad[", "fine", "also{bad"]);
    match compile_overrides("/r", &lines) {
        Err(RuleError::InvalidGlob { index, line, .. }) => {
            assert_eq!(index, 1);
            assert_eq!(line, "bad[");
        }
        other => panic!("unexpected: {:?}", other),
    }
}

#[test]
fn message_is_the_description_of_the_error() {
    let error = compile_overrides("/r", &strings(&["x[y"])).unwrap_err();
    let message = error.message();
    assert!(message.starts_with("error parsing glob 'x[y'"), "{}", message);
    let build = RuleError::Build { reason: "too large".to_string() };
    assert_eq!(build.message(), "too large");
}

#[test]
fn globs_too_many_to_compile_are_reported_as_a_whole() {
    // each line is a valid glob; together they are beyond what the matcher can be built of
    let lines: Vec<String> = (0..20000)
        .map(|i| {
            format!("!dir{}/*[a-zA-Z0-9]?*x{{alpha,beta,gamma}}y*{}*z/**/w*.{{rs,txt}}", i, i)
        })
        .collect();
    match compile_overrides("/r", &lines) {
        Err(RuleError::Build { reason }) => assert!(!reason.is_empty()),
        other => panic!("unexpected: {:?}", other.map(|_| ())),
    }
}

#[test]
fn white_space_at_the_end_of_a_line_is_not_part_of_the_glob() {
    let ov = compile_overrides("/r", &strings(&["!*.log  \t", "!tmp\u{3000}"])).unwrap();
    assert_eq!(ov.num_ignores(), 2);
    assert!(ov.matched("x.log", false).is_ignore());
    assert!(ov.matched("tmp", false).is_ignore());
    assert!(ov.matched("x.log  \t", false).is_none());
}

#[test]
fn an_escaped_blank_at_the_end_of_a_line_stays() {
    let ov = compile_overrides("/r", &strings(&["keep\\ "])).unwrap();
    assert_eq!(ov.num_whitelists(), 1);
    assert!(ov.matched("keep ", false).is_whitelist());
    assert!(ov.matched("keep", false).is_ignore());
}

#[test]
fn odd_output_names_make_valid_rules() {
    for output in ["", " ", "#digest", "!digest", "a b.txt", "out/digest.txt"] {
        let ov = build_rule_set("/r", &settings(output, &[], &[])).unwrap();
        assert_eq!(ov.num_whitelists(), 0);
        assert_eq!(ov.num_ignores(), 33);
    }
    let ov = build_rule_set("/r", &settings("!digest", &[], &[])).unwrap();
    assert!(ov.matched("!digest", false).is_ignore());
    let ov = build_rule_set("/r", &settings("a b.txt", &[], &[])).unwrap();
    assert!(ov.matched("a b.txt", false).is_ignore());
}
