use ignorematch::MatchResult;
use ignorematch::Registry;
use ignorematch::RuleSet;
use ignorematch::compile_bytes;
use ignorematch::evaluate;
use ignorematch::filter;
use ignorematch::match_result_code;

fn matcher(patterns: &[&str]) -> RuleSet {
    compile_bytes(patterns.join("\n").as_bytes())
}

fn matches_file(gi: &RuleSet, path: &str) -> MatchResult {
    evaluate(gi, path, false)
}

fn matches_dir(gi: &RuleSet, path: &str) -> MatchResult {
    evaluate(gi, path, true)
}

fn batch(gi: &RuleSet, paths: &[&str]) -> Vec<String> {
    let input = paths.join("\n");
    filter(gi, &input)
}

// -----------------------------------------------------------------------
// compile_bytes
// -----------------------------------------------------------------------

#[test]
fn build_empty_patterns() {
    let gi = compile_bytes(b"");
    assert!(gi.is_empty());
}

#[test]
fn build_single_pattern() {
    let gi = compile_bytes(b"*.log");
    assert_eq!(gi.num_ignores(), 1);
}

#[test]
fn build_multiple_patterns() {
    let gi = compile_bytes(b"*.log\nbuild/\ntemp*");
    assert_eq!(gi.num_ignores(), 3);
}

#[test]
fn build_with_comments_and_blanks() {
    let gi = compile_bytes(b"# this is a comment\n\n*.log\n\n# another comment\nbuild/");
    assert_eq!(gi.num_ignores(), 2);
}

#[test]
fn build_with_negation() {
    let gi = compile_bytes(b"*.log\n!important.log");
    assert_eq!(gi.num_ignores(), 1);
    assert_eq!(gi.num_whitelists(), 1);
}

// -----------------------------------------------------------------------
// evaluate - basic globs
// -----------------------------------------------------------------------

#[test]
fn match_star_extension() {
    let gi = matcher(&["*.log"]);
    assert_eq!(matches_file(&gi, "debug.log"), MatchResult::Ignored);
    assert_eq!(matches_file(&gi, "error.log"), MatchResult::Ignored);
    assert_eq!(matches_file(&gi, "app.txt"), MatchResult::Unmatched);
    assert_eq!(matches_file(&gi, "src/debug.log"), MatchResult::Ignored);
}

#[test]
fn match_exact_filename() {
    let gi = matcher(&["Thumbs.db"]);
    assert_eq!(matches_file(&gi, "Thumbs.db"), MatchResult::Ignored);
    assert_eq!(matches_file(&gi, "src/Thumbs.db"), MatchResult::Ignored);
    assert_eq!(matches_file(&gi, "thumbs.db"), MatchResult::Unmatched);
}

#[test]
fn match_prefix_star() {
    let gi = matcher(&["temp*"]);
    assert_eq!(matches_file(&gi, "tempfile"), MatchResult::Ignored);
    assert_eq!(matches_file(&gi, "temporary.txt"), MatchResult::Ignored);
    assert_eq!(matches_file(&gi, "atemp"), MatchResult::Unmatched);
}

#[test]
fn match_double_star() {
    let gi = matcher(&["**/logs"]);
    assert_eq!(matches_file(&gi, "logs"), MatchResult::Ignored);
    assert_eq!(matches_file(&gi, "a/logs"), MatchResult::Ignored);
    assert_eq!(matches_file(&gi, "a/b/logs"), MatchResult::Ignored);
}

#[test]
fn match_double_star_with_extension() {
    let gi = matcher(&["**/*.log"]);
    assert_eq!(matches_file(&gi, "debug.log"), MatchResult::Ignored);
    assert_eq!(matches_file(&gi, "a/debug.log"), MatchResult::Ignored);
    assert_eq!(matches_file(&gi, "a/b/c/debug.log"), MatchResult::Ignored);
}

#[test]
fn match_question_mark() {
    let gi = matcher(&["debug?.log"]);
    assert_eq!(matches_file(&gi, "debug0.log"), MatchResult::Ignored);
    assert_eq!(matches_file(&gi, "debugA.log"), MatchResult::Ignored);
    assert_eq!(matches_file(&gi, "debug.log"), MatchResult::Unmatched);
    assert_eq!(matches_file(&gi, "debug10.log"), MatchResult::Unmatched);
}

#[test]
fn match_character_class() {
    let gi = matcher(&["debug[0-9].log"]);
    assert_eq!(matches_file(&gi, "debug0.log"), MatchResult::Ignored);
    assert_eq!(matches_file(&gi, "debug9.log"), MatchResult::Ignored);
    assert_eq!(matches_file(&gi, "debugA.log"), MatchResult::Unmatched);
}

// -----------------------------------------------------------------------
// evaluate - directory patterns
// -----------------------------------------------------------------------

#[test]
fn match_directory_trailing_slash_pattern() {
    // Pattern "build/" should only match directories, not files named "build"
    let gi = matcher(&["build/"]);
    assert_eq!(matches_dir(&gi, "build"), MatchResult::Ignored);
    assert_eq!(matches_file(&gi, "build"), MatchResult::Unmatched);
    assert_eq!(matches_dir(&gi, "src/build"), MatchResult::Ignored);
}

#[test]
fn match_directory_without_trailing_slash_pattern() {
    // Pattern "build" without trailing slash matches both files and dirs
    let gi = matcher(&["build"]);
    assert_eq!(matches_file(&gi, "build"), MatchResult::Ignored);
    assert_eq!(matches_dir(&gi, "build"), MatchResult::Ignored);
}

#[test]
fn match_nested_directory_pattern() {
    let gi = matcher(&["logs/**/debug.log"]);
    assert_eq!(matches_file(&gi, "logs/debug.log"), MatchResult::Ignored);
    assert_eq!(matches_file(&gi, "logs/monday/debug.log"), MatchResult::Ignored);
    assert_eq!(matches_file(&gi, "logs/monday/pm/debug.log"), MatchResult::Ignored);
}

// -----------------------------------------------------------------------
// evaluate - negation patterns
// -----------------------------------------------------------------------

#[test]
fn negation_basic() {
    let gi = matcher(&["*.log", "!important.log"]);
    assert_eq!(matches_file(&gi, "debug.log"), MatchResult::Ignored);
    assert_eq!(matches_file(&gi, "error.log"), MatchResult::Ignored);
    assert_eq!(matches_file(&gi, "important.log"), MatchResult::Whitelisted);
}

#[test]
fn negation_order_matters() {
    // In gitignore, later patterns override earlier ones
    let gi = matcher(&["*.log", "!important.log", "important.log"]);
    // The last pattern re-ignores important.log
    assert_eq!(matches_file(&gi, "important.log"), MatchResult::Ignored);
}

#[test]
fn negation_of_directory() {
    let gi = matcher(&["build/", "!build/"]);
    assert_eq!(matches_dir(&gi, "build"), MatchResult::Whitelisted);
}

// -----------------------------------------------------------------------
// evaluate - rooted / anchored patterns
// -----------------------------------------------------------------------

#[test]
fn rooted_pattern_with_leading_slash() {
    // A leading slash anchors the pattern to the root
    let gi = matcher(&["/build"]);
    assert_eq!(matches_file(&gi, "build"), MatchResult::Ignored);
    // Should NOT match in subdirectories
    assert_eq!(matches_file(&gi, "src/build"), MatchResult::Unmatched);
}

#[test]
fn pattern_with_middle_slash_is_anchored() {
    // A pattern containing a slash (other than trailing) is anchored
    let gi = matcher(&["doc/frotz"]);
    assert_eq!(matches_file(&gi, "doc/frotz"), MatchResult::Ignored);
    assert_eq!(matches_file(&gi, "a/doc/frotz"), MatchResult::Unmatched);
}

// -----------------------------------------------------------------------
// evaluate - edge cases
// -----------------------------------------------------------------------

#[test]
fn empty_matcher_matches_nothing() {
    let gi = matcher(&[]);
    assert_eq!(matches_file(&gi, "anything.txt"), MatchResult::Unmatched);
    assert_eq!(matches_dir(&gi, "anydir"), MatchResult::Unmatched);
}

#[test]
fn comments_only_matcher_matches_nothing() {
    let gi = matcher(&["# just a comment", "# another comment"]);
    assert_eq!(matches_file(&gi, "anything.txt"), MatchResult::Unmatched);
}

#[test]
fn escaped_hash_is_literal() {
    let gi = matcher(&["\\#file"]);
    assert_eq!(matches_file(&gi, "#file"), MatchResult::Ignored);
}

#[test]
fn escaped_bang_is_literal() {
    let gi = matcher(&["\\!important"]);
    assert_eq!(matches_file(&gi, "!important"), MatchResult::Ignored);
}

#[test]
fn trailing_spaces_are_ignored() {
    // Trailing spaces are insignificant unless escaped with backslash
    let gi = matcher(&["*.log   "]);
    assert_eq!(matches_file(&gi, "debug.log"), MatchResult::Ignored);
    assert_eq!(matches_file(&gi, "debug.log   "), MatchResult::Unmatched);
}

#[test]
fn match_deeply_nested_path() {
    let gi = matcher(&["*.log"]);
    assert_eq!(matches_file(&gi, "a/b/c/d/e/f/g/deep.log"), MatchResult::Ignored);
    assert_eq!(matches_file(&gi, "a/b/c/d/e/f/g/deep.txt"), MatchResult::Unmatched);
}

// -----------------------------------------------------------------------
// evaluate - common real-world patterns
// -----------------------------------------------------------------------

#[test]
fn node_modules_pattern() {
    let gi = matcher(&["node_modules/"]);
    assert_eq!(matches_dir(&gi, "node_modules"), MatchResult::Ignored);
    assert_eq!(matches_dir(&gi, "packages/app/node_modules"), MatchResult::Ignored);
    // File named node_modules (weird but possible) should NOT match
    assert_eq!(matches_file(&gi, "node_modules"), MatchResult::Unmatched);
}

#[test]
fn dotfile_pattern() {
    let gi = matcher(&[".*"]);
    assert_eq!(matches_file(&gi, ".gitignore"), MatchResult::Ignored);
    assert_eq!(matches_file(&gi, ".env"), MatchResult::Ignored);
    assert_eq!(matches_file(&gi, "visible.txt"), MatchResult::Unmatched);
}

#[test]
fn complex_gitignore() {
    let gi = matcher(&[
        "# Build outputs",
        "build/",
        "dist/",
        "*.o",
        "*.a",
        "",
        "# Logs",
        "*.log",
        "logs/",
        "",
        "# Dependencies",
        "node_modules/",
        "vendor/",
        "",
        "# Keep important files",
        "!.gitkeep",
        "!README.md",
    ]);

    assert_eq!(matches_dir(&gi, "build"), MatchResult::Ignored);
    assert_eq!(matches_dir(&gi, "dist"), MatchResult::Ignored);
    assert_eq!(matches_file(&gi, "main.o"), MatchResult::Ignored);
    assert_eq!(matches_file(&gi, "lib.a"), MatchResult::Ignored);
    assert_eq!(matches_file(&gi, "app.log"), MatchResult::Ignored);
    assert_eq!(matches_dir(&gi, "node_modules"), MatchResult::Ignored);
    assert_eq!(matches_dir(&gi, "vendor"), MatchResult::Ignored);
    assert_eq!(matches_file(&gi, "src/main.rs"), MatchResult::Unmatched);
    assert_eq!(matches_file(&gi, "README.md"), MatchResult::Whitelisted);
}

// -----------------------------------------------------------------------
// filter - batch filtering
// -----------------------------------------------------------------------

#[test]
fn filter_basic() {
    let gi = matcher(&["*.log", "build/"]);
    let result = batch(
        &gi,
        &["src/main.go", "debug.log", "error.log", "build/", "README.md"],
    );
    assert_eq!(result, vec!["src/main.go", "README.md"]);
}

#[test]
fn filter_with_negation() {
    let gi = matcher(&["*.log", "!important.log"]);
    let result = batch(&gi, &["debug.log", "important.log", "error.log", "src/main.go"]);
    assert_eq!(result, vec!["important.log", "src/main.go"]);
}

#[test]
fn filter_all_ignored() {
    let gi = matcher(&["*"]);
    let result = batch(&gi, &["a.txt", "b.txt", "c.txt"]);
    assert!(result.is_empty());
}

#[test]
fn filter_none_ignored() {
    let gi = matcher(&["*.log"]);
    let result = batch(&gi, &["a.txt", "b.rs", "c.go"]);
    assert_eq!(result, vec!["a.txt", "b.rs", "c.go"]);
}

#[test]
fn filter_empty_input() {
    let gi = matcher(&["*.log"]);
    let result = batch(&gi, &[]);
    assert!(result.is_empty());
}

#[test]
fn filter_preserves_order() {
    let gi = matcher(&["*.log"]);
    let result = batch(&gi, &["z.txt", "a.txt", "m.txt", "debug.log", "b.txt"]);
    assert_eq!(result, vec!["z.txt", "a.txt", "m.txt", "b.txt"]);
}

#[test]
fn filter_directory_detection_via_trailing_slash() {
    // "build/" pattern only matches directories.
    // In the batch filter, entries ending with "/" are treated as directories.
    let gi = matcher(&["build/"]);
    let result = batch(
        &gi,
        &[
            "build/", // directory: should be ignored
            "build",  // file: should NOT be ignored
            "src/main.go",
        ],
    );
    assert_eq!(result, vec!["build", "src/main.go"]);
}

#[test]
fn filter_skips_empty_lines() {
    let gi = matcher(&["*.log"]);
    // Empty lines in the input (appearing as "" between newlines)
    let input = "a.txt\n\nb.log\n\nc.txt\n";
    let result = filter(&gi, input);
    assert_eq!(result, vec!["a.txt", "c.txt"]);
}

#[test]
fn filter_large_pattern_set() {
    // A realistic ignore file with many patterns
    let patterns: Vec<&str> = vec![
        "*.o",
        "*.a",
        "*.so",
        "*.dylib",
        "*.dll",
        "*.exe",
        "*.log",
        "*.tmp",
        "*.swp",
        "*.swo",
        "*.bak",
        "*.orig",
        "build/",
        "dist/",
        "target/",
        "out/",
        "node_modules/",
        "vendor/",
        ".git/",
        ".DS_Store",
        "Thumbs.db",
        "*.pyc",
        "__pycache__/",
    ];
    let gi = matcher(&patterns);

    let paths = vec![
        "src/main.rs",
        "src/lib.rs",
        "Cargo.toml",
        "README.md",
        "build/",
        "target/",
        "main.o",
        "libfoo.a",
        "libbar.so",
        "node_modules/",
        ".DS_Store",
        "Thumbs.db",
        "app.log",
        "temp.tmp",
        ".vim.swp",
        "src/utils.rs",
        "docs/guide.md",
        "tests/test_main.rs",
    ];

    let result = batch(&gi, &paths);
    assert_eq!(
        result,
        vec![
            "src/main.rs",
            "src/lib.rs",
            "Cargo.toml",
            "README.md",
            "src/utils.rs",
            "docs/guide.md",
            "tests/test_main.rs",
        ]
    );
}

// -----------------------------------------------------------------------
// Multiple matchers coexisting
// -----------------------------------------------------------------------

#[test]
fn multiple_matchers_independent() {
    let gi1 = matcher(&["*.log"]);
    let gi2 = matcher(&["*.txt"]);

    assert_eq!(matches_file(&gi1, "debug.log"), MatchResult::Ignored);
    assert_eq!(matches_file(&gi1, "readme.txt"), MatchResult::Unmatched);

    assert_eq!(matches_file(&gi2, "debug.log"), MatchResult::Unmatched);
    assert_eq!(matches_file(&gi2, "readme.txt"), MatchResult::Ignored);
}

// -----------------------------------------------------------------------
// Registry
// -----------------------------------------------------------------------

#[test]
fn store_and_retrieve_matcher() {
    let mut reg = Registry::new();
    let gi = compile_bytes(b"*.log");
    let id = reg.store(gi);
    assert!(id > 0);

    let retrieved = reg.lookup(id).expect("matcher should exist");
    assert_eq!(evaluate(retrieved, "debug.log", false), MatchResult::Ignored);

    reg.destroy(id);
    assert!(reg.lookup(id).is_none());
}

#[test]
fn destroy_nonexistent_handle_is_noop() {
    // Shouldn't panic or corrupt state
    let mut reg = Registry::new();
    reg.create("*.log");
    let before = reg.len();
    reg.destroy(999999);
    assert_eq!(reg.len(), before);
}

// -----------------------------------------------------------------------
// MatchResult integer mapping
// -----------------------------------------------------------------------

#[test]
fn match_result_integer_values() {
    // The codes the host side of the boundary expects
    assert_eq!(match_result_code(MatchResult::Unmatched), 0);
    assert_eq!(match_result_code(MatchResult::Ignored), 1);
    assert_eq!(match_result_code(MatchResult::Whitelisted), 2);
}

// -----------------------------------------------------------------------
// Parent-directory matching - ancestor propagation
// -----------------------------------------------------------------------

#[test]
fn parent_match_target_dir_ignores_children() {
    let gi = matcher(&["target/"]);
    // The directory itself is ignored
    assert_eq!(matches_dir(&gi, "target"), MatchResult::Ignored);
    // Children of an ignored directory are also ignored
    assert_eq!(matches_file(&gi, "target/foo/bar.rs"), MatchResult::Ignored);
    assert_eq!(matches_file(&gi, "target/debug/build/output"), MatchResult::Ignored);
}

#[test]
fn parent_match_node_modules_ignores_children() {
    let gi = matcher(&["node_modules/"]);
    assert_eq!(matches_file(&gi, "node_modules/express/index.js"), MatchResult::Ignored);
    assert_eq!(
        matches_file(&gi, "node_modules/.package-lock.json"),
        MatchResult::Ignored
    );
    // Nested node_modules children too
    assert_eq!(matches_dir(&gi, "packages/app/node_modules"), MatchResult::Ignored);
    assert_eq!(
        matches_file(&gi, "packages/app/node_modules/lodash/index.js"),
        MatchResult::Ignored
    );
}

#[test]
fn parent_match_batch_filter_children_of_ignored_dir() {
    let gi = matcher(&["build/"]);
    let result = batch(
        &gi,
        &["src/main.rs", "build/", "build/output.o", "build/lib/foo.a", "README.md"],
    );
    assert_eq!(result, vec!["src/main.rs", "README.md"]);
}

#[test]
fn parent_match_negation_can_whitelist_child() {
    // A negation pattern can re-whitelist a specific file under an ignored
    // directory.
    let gi = matcher(&["build/", "!build/important.txt"]);
    // The directory itself is ignored
    assert_eq!(matches_dir(&gi, "build"), MatchResult::Ignored);
    // The negation pattern whitelists this specific child
    assert_eq!(matches_file(&gi, "build/important.txt"), MatchResult::Whitelisted);
    // Other children are still ignored
    assert_eq!(matches_file(&gi, "build/output.o"), MatchResult::Ignored);
}
