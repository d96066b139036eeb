use rust_ingest::classify::{
    classify, decide, exceeds_limit, extension_of, has_excluded_extension, is_excluded_extension,
    ContentDecision, FileEntry,
};
use rust_ingest::order::sort_paths;
use rust_ingest::paths::RelPath;

fn path(text: &str) -> RelPath {
    RelPath::new(text.split('/').map(|p| p.to_string()).collect())
}

fn entry(text: &str, size: u64) -> FileEntry {
    FileEntry { path: path(text), size }
}

fn texts(paths: &[RelPath]) -> Vec<String> {
    paths.iter().map(|p| p.text()).collect()
}

#[test]
fn extension_is_what_follows_the_last_dot() {
    assert_eq!(extension_of("main.rs"), Some("rs".to_string()));
    assert_eq!(extension_of("archive.tar.gz"), Some("gz".to_string()));
    assert_eq!(extension_of("Photo.PNG"), Some("PNG".to_string()));
    assert_eq!(extension_of(".a.b"), Some("b".to_string()));
}

#[test]
fn names_without_a_dot_have_no_extension() {
    assert_eq!(extension_of("Makefile"), None);
    assert_eq!(extension_of(""), None);
}

#[test]
fn a_leading_dot_alone_makes_no_extension() {
    assert_eq!(extension_of(".gitignore"), None);
    assert_eq!(extension_of("."), None);
    assert_eq!(extension_of(".."), None);
}

#[test]
fn a_trailing_dot_gives_an_empty_extension() {
    assert_eq!(extension_of("name."), Some(String::new()));
    assert_eq!(extension_of("..."), Some(String::new()));
}

#[test]
fn extension_agrees_with_the_standard_path() {
    let names = [
        "a.rs", "a", ".a", "a.", "..", "...", ".a.b", "a.b.c", "é.日", "x.tar.gz", ".", "",
        "a..b", "..a",
    ];
    for name in names {
        let expected = std::path::Path::new(name)
            .extension()
            .map(|e| e.to_string_lossy().into_owned());
        if name == "." || name.is_empty() {
            // no file name at all for the standard path
            assert_eq!(extension_of(name), None);
        } else {
            assert_eq!(extension_of(name), expected, "{:?}", name);
        }
    }
}

#[test]
fn every_built_in_extension_is_excluded() {
    let all = [
        ".png", ".jpg", ".jpeg", ".gif", ".bmp", ".ico", ".webp", ".svg", ".woff", ".woff2",
        ".ttf", ".eot", ".otf", ".zip", ".gz", ".tar", ".rar", ".7z", ".pack", ".wasm", ".dll",
        ".exe", ".so", ".a", ".lib", ".bin", ".o", ".pdf",
    ];
    for ext in all {
        assert!(is_excluded_extension(ext), "{}", ext);
    }
}

#[test]
fn other_extensions_are_not_excluded() {
    for ext in [".rs", ".txt", ".md", "", ".", "png", ".PNG", ".pn", ".pngx", ".toml"] {
        assert!(!is_excluded_extension(ext), "{:?}", ext);
    }
}

#[test]
fn excluded_extension_is_judged_without_regard_to_case() {
    assert!(has_excluded_extension(&path("logo.png")));
    assert!(has_excluded_extension(&path("logo.PNG")));
    assert!(has_excluded_extension(&path("assets/Logo.PnG")));
    assert!(has_excluded_extension(&path("lib/libfoo.SO")));
    assert!(has_excluded_extension(&path("report.Pdf")));
}

#[test]
fn lower_casing_goes_beyond_ascii() {
    // U+212A KELVIN SIGN has the lower case `k`
    assert!(has_excluded_extension(&path("objects.PAC\u{212a}")));
}

#[test]
fn only_the_file_name_is_judged() {
    assert!(!has_excluded_extension(&path("images.png/readme.txt")));
    assert!(has_excluded_extension(&path("docs.txt/picture.jpeg")));
}

#[test]
fn a_file_without_extension_is_never_excluded_by_extension() {
    assert!(!has_excluded_extension(&path("Makefile")));
    assert!(!has_excluded_extension(&path(".png")));
    assert!(!has_excluded_extension(&path("png")));
    assert!(!has_excluded_extension(&RelPath::new(vec![])));
}

#[test]
fn the_size_limit_is_inclusive() {
    assert!(!exceeds_limit(100 * 1024, 100));
    assert!(exceeds_limit(100 * 1024 + 1, 100));
    assert!(!exceeds_limit(0, 0));
    assert!(exceeds_limit(1, 0));
    assert!(!exceeds_limit(1023, 1));
    assert!(!exceeds_limit(1024, 1));
    assert!(exceeds_limit(1025, 1));
}

#[test]
fn a_limit_beyond_the_largest_size_is_never_exceeded() {
    assert!(!exceeds_limit(u64::MAX, u64::MAX));
    assert!(!exceeds_limit(u64::MAX, 1 << 54));
    assert!(exceeds_limit(u64::MAX, (1 << 54) - 1));
}

#[test]
fn decide_looks_at_the_extension_first() {
    assert_eq!(decide(&path("a.rs"), 10, 100), ContentDecision::Include);
    assert_eq!(decide(&path("a.png"), 10, 100), ContentDecision::ExcludedExtension);
    assert_eq!(decide(&path("a.png"), 1 << 40, 100), ContentDecision::ExcludedExtension);
    assert_eq!(decide(&path("a.rs"), 1 << 40, 100), ContentDecision::TooLarge);
}

#[test]
fn file_at_the_limit_is_taken_and_one_byte_more_is_not() {
    let entries = vec![entry("exact.txt", 100 * 1024), entry("over.txt", 100 * 1024 + 1)];
    let listings = classify(&entries, 100);
    assert_eq!(texts(&listings.tree_files), vec!["exact.txt", "over.txt"]);
    assert_eq!(texts(&listings.content_files), vec!["exact.txt"]);
}

#[test]
fn small_file_with_excluded_extension_is_only_in_the_tree() {
    let entries = vec![entry("tiny.PNG", 1), entry("tiny.txt", 1), entry("empty.zip", 0)];
    let listings = classify(&entries, 100);
    assert_eq!(texts(&listings.tree_files), vec!["empty.zip", "tiny.PNG", "tiny.txt"]);
    assert_eq!(texts(&listings.content_files), vec!["tiny.txt"]);
}

#[test]
fn content_listing_is_within_the_tree_listing() {
    let entries = vec![
        entry("src/main.rs", 2000),
        entry("assets/logo.svg", 300),
        entry("data/big.csv", 10_000_000),
        entry("README.md", 120),
        entry("Cargo.toml", 80),
    ];
    let listings = classify(&entries, 100);
    assert_eq!(listings.tree_files.len(), 5);
    assert_eq!(texts(&listings.content_files), vec!["Cargo.toml", "README.md", "src/main.rs"]);
    for p in &listings.content_files {
        assert!(listings.tree_files.contains(p));
    }
}

#[test]
fn listings_are_sorted_by_the_text_of_the_path() {
    let entries = vec![
        entry("b/z.txt", 1),
        entry("a/b", 1),
        entry("a-b/c", 1),
        entry("a", 1),
        entry("Z", 1),
        entry("a/a", 1),
    ];
    let listings = classify(&entries, 100);
    let expected = vec!["Z", "a", "a-b/c", "a/a", "a/b", "b/z.txt"];
    assert_eq!(texts(&listings.tree_files), expected);
    assert_eq!(texts(&listings.content_files), expected);
}

#[test]
fn nothing_discovered_gives_empty_listings() {
    let listings = classify(&vec![], 100);
    assert!(listings.tree_files.is_empty());
    assert!(listings.content_files.is_empty());
}

#[test]
fn a_limit_of_zero_takes_only_empty_files() {
    let entries = vec![entry("empty.txt", 0), entry("one.txt", 1)];
    let listings = classify(&entries, 0);
    assert_eq!(texts(&listings.content_files), vec!["empty.txt"]);
}

#[test]
fn sort_paths_orders_and_keeps_every_path() {
    let paths = vec![path("c"), path("a/b"), path("b"), path("a"), path("b"), path("a.b")];
    let sorted = sort_paths(paths);
    assert_eq!(texts(&sorted), vec!["a", "a.b", "a/b", "b", "b", "c"]);
}

#[test]
fn sort_paths_agrees_with_sorting_the_texts() {
    let words = ["src/main.rs", "src/lib.rs", "README.md", "a/é", "a/z", "Z/a", "src", ""];
    let mut expected: Vec<String> = words.iter().map(|w| w.to_string()).collect();
    expected.sort();
    let sorted = sort_paths(words.iter().map(|w| path(w)).collect());
    assert_eq!(texts(&sorted), expected);
}

#[test]
fn sort_paths_agrees_with_sorting_random_texts() {
    let parts = ["a", "b", "B", "src", "é", "x.rs", "a-b", "a.b", "ab", "Z", "0", "_"];
    let mut state: u64 = 0x9e37_79b9_7f4a_7c15;
    let mut next = move |bound: usize| {
        state ^= state << 13;
        state ^= state >> 7;
        state ^= state << 17;
        (state % bound as u64) as usize
    };
    for _ in 0..200 {
        let count = next(15);
        let mut paths = Vec::new();
        for _ in 0..count {
            let depth = 1 + next(3);
            let components = (0..depth).map(|_| parts[next(parts.len())].to_string()).collect();
            paths.push(RelPath::new(components));
        }
        let mut expected: Vec<String> = paths.iter().map(|p| p.text()).collect();
        expected.sort();
        assert_eq!(texts(&sort_paths(paths)), expected);
    }
}
