use prdiff::args::{parse_args, ArgsError, Invocation};
use prdiff::diffline::{classify_diff_line, strip_ansi, DiffLineType};
use prdiff::modal::{matches_folded, BranchModal};
use prdiff::revision::{
    base_candidates, detect_base_branch, git_default_remote, list_branches, remote_candidate,
    resolve_base_ref, trim_text, trimmed_output, ResolutionError,
};
use prdiff::theme::ThemeMode;

fn strings(items: &[&str]) -> Vec<String> {
    items.iter().map(|s| s.to_string()).collect()
}

#[test]
fn lines_of_a_patch_are_classified() {
    assert_eq!(classify_diff_line("@@ -1,2 +1,3 @@"), DiffLineType::Hunk);
    assert_eq!(classify_diff_line("+added"), DiffLineType::Added);
    assert_eq!(classify_diff_line("+++ b/file"), DiffLineType::Header);
    assert_eq!(classify_diff_line("-removed"), DiffLineType::Removed);
    assert_eq!(classify_diff_line("--- a/file"), DiffLineType::Header);
    assert_eq!(classify_diff_line("diff --git a/x b/x"), DiffLineType::Header);
    assert_eq!(classify_diff_line("rename from x"), DiffLineType::Header);
    assert_eq!(classify_diff_line("\\ No newline at end of file"), DiffLineType::Header);
    assert_eq!(classify_diff_line(" context"), DiffLineType::Context);
    assert_eq!(classify_diff_line(""), DiffLineType::Context);
}

#[test]
fn escape_sequences_are_removed() {
    assert_eq!(strip_ansi("\u{1b}[31mred\u{1b}[0m plain"), "red plain");
    assert_eq!(strip_ansi("no escapes"), "no escapes");
    assert_eq!(strip_ansi("cut\u{1b}[1;2"), "cut");
}

#[test]
fn branch_picker_filters_ignoring_case() {
    let mut m = BranchModal::new(strings(&["main", "origin/Feature-X", "develop", "feature-y"]));
    assert_eq!(m.filtered, vec![0, 1, 2, 3]);
    assert_eq!(m.selected_branch(), Some("main"));
    m.cursor = 3;
    m.query = "FEATURE".to_string();
    m.update_filter();
    assert_eq!(m.filtered, vec![1, 3]);
    assert_eq!(m.cursor, 1);
    assert_eq!(m.selected_branch(), Some("feature-y"));
    m.query = "zzz".to_string();
    m.update_filter();
    assert!(m.filtered.is_empty());
    assert_eq!(m.cursor, 0);
    assert_eq!(m.selected_branch(), None);
}

#[test]
fn folded_matching() {
    assert!(matches_folded("", "anything"));
    assert!(matches_folded("dev", "develop"));
    assert!(!matches_folded("xyz", "develop"));
}

#[test]
fn theme_names_in_any_case() {
    assert_eq!(ThemeMode::from_str("light"), Some(ThemeMode::Light));
    assert_eq!(ThemeMode::from_str("DARK"), Some(ThemeMode::Dark));
    assert_eq!(ThemeMode::from_str("Dim"), None);
    assert_eq!(ThemeMode::from_lowercase("dark"), Some(ThemeMode::Dark));
    assert_eq!(ThemeMode::from_lowercase("Dark"), None);
}

#[test]
fn command_line_is_read() {
    match parse_args(&strings(&["-b", "main", "--theme", "Light"])) {
        Ok(Invocation::Run(a)) => {
            assert_eq!(a.base_branch, Some("main".to_string()));
            assert_eq!(a.theme, Some(ThemeMode::Light));
        }
        other => panic!("unexpected {other:?}"),
    }
    match parse_args(&strings(&["develop"])) {
        Ok(Invocation::Run(a)) => {
            assert_eq!(a.base_branch, Some("develop".to_string()));
            assert_eq!(a.theme, None);
        }
        other => panic!("unexpected {other:?}"),
    }
    assert!(matches!(parse_args(&strings(&["x", "--help"])), Ok(Invocation::Help)));
    assert!(matches!(parse_args(&strings(&["--base"])), Err(ArgsError::MissingBase)));
    assert!(matches!(parse_args(&strings(&["-t"])), Err(ArgsError::MissingTheme)));
    assert!(matches!(parse_args(&strings(&["-t", "blue"])), Err(ArgsError::InvalidTheme(t)) if t == "blue"));
    assert!(matches!(parse_args(&strings(&["--verbose"])), Err(ArgsError::UnknownOption(o)) if o == "--verbose"));
    assert!(matches!(parse_args(&strings(&["a", "b"])), Err(ArgsError::UnexpectedArgument(o)) if o == "b"));
    assert!(matches!(parse_args(&strings(&[])), Ok(Invocation::Run(_))));
}

#[test]
fn default_remote_prefers_origin() {
    assert_eq!(git_default_remote("upstream\norigin\n"), Some("origin".to_string()));
    assert_eq!(git_default_remote("  fork  \n\n"), Some("fork".to_string()));
    assert_eq!(git_default_remote("a\nb\n"), None);
    assert_eq!(git_default_remote(""), None);
}

#[test]
fn branch_listing_is_cleaned_and_sorted() {
    let out = "  main\norigin/HEAD\nfeature\norigin/main\nfeature\n\n  bugfix \n";
    assert_eq!(list_branches(out), strings(&["bugfix", "feature", "main", "origin/main"]));
    assert!(list_branches("").is_empty());
}

#[test]
fn base_resolution_prefers_the_remote_name() {
    assert_eq!(remote_candidate("main", Some("origin".to_string())), Some("origin/main".to_string()));
    assert_eq!(remote_candidate("origin/main", Some("origin".to_string())), None);
    assert_eq!(remote_candidate("main", None), None);
    assert_eq!(resolve_base_ref("main", Some("origin/main".to_string()), true, true).unwrap(), "origin/main");
    assert_eq!(resolve_base_ref("main", Some("origin/main".to_string()), false, true).unwrap(), "main");
    assert!(matches!(resolve_base_ref("nope", None, false, false), Err(ResolutionError::Unresolvable(n)) if n == "nope"));
}

#[test]
fn base_detection_takes_the_first_that_resolves() {
    assert_eq!(base_candidates(None), strings(&["develop", "main", "master"]));
    assert_eq!(base_candidates(Some("topic".to_string())), strings(&["topic"]));
    let r = detect_base_branch(None, vec![None, Some("origin/main".to_string()), Some("master".to_string())]);
    assert_eq!(r.unwrap(), "origin/main");
    assert!(matches!(detect_base_branch(None, vec![None, None, None]), Err(ResolutionError::NoBaseFound)));
    assert!(matches!(detect_base_branch(Some("x".to_string()), vec![None]), Err(ResolutionError::Unresolvable(n)) if n == "x"));
}

#[test]
fn command_output_is_trimmed() {
    assert_eq!(trim_text("  abc123\n"), "abc123");
    assert_eq!(trim_text(" \t\n"), "");
    assert_eq!(trimmed_output(true, "deadbeef\n"), Some("deadbeef".to_string()));
    assert_eq!(trimmed_output(false, "deadbeef\n"), None);
}
