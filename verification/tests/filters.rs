use projector::find::error::PatternError;
use projector::find::filter::hits;
use projector::find::filter::name_is_hidden;
use projector::find::filter::Entry;
use projector::find::filter::Filters;
use projector::find::projects::regex_from_patterns;
use regex::Regex;
use regex::RegexSet;

fn strings(items: &[&str]) -> Vec<String> {
    items.iter().map(|s| s.to_string()).collect()
}

fn dir(path: &str) -> Entry {
    let name = path.rsplit('/').next().unwrap().to_string();
    Entry { name, path: path.to_string(), is_dir: true, has_marker: false }
}

#[test]
fn names_with_a_leading_dot_are_hidden() {
    assert!(name_is_hidden(".git"));
    assert!(name_is_hidden(".cache"));
    assert!(name_is_hidden("."));
    assert!(!name_is_hidden("git"));
    assert!(!name_is_hidden("a.b"));
    assert!(!name_is_hidden(""));
    assert!(!name_is_hidden("\u{e9}.x"));
}

#[test]
fn an_empty_set_hits_nothing() {
    let empty = RegexSet::empty();
    assert!(!hits(&empty, ""));
    assert!(!hits(&empty, "/code/aproject"));
    let built = regex_from_patterns(Vec::new()).unwrap();
    assert!(built.is_empty());
    assert!(!hits(&built, ""));
    assert!(!hits(&built, "anything"));
}

#[test]
fn a_set_hits_where_any_pattern_matches_anywhere() {
    let set = regex_from_patterns(strings(&["ignored", "^/tmp"])).unwrap();
    assert_eq!(set.patterns().to_vec(), strings(&["ignored", "^/tmp"]));
    assert!(hits(&set, "/code/ignored_but_included"));
    assert!(hits(&set, "/tmp/x"));
    assert!(!hits(&set, "/code/tmp"));
    assert!(!hits(&set, "/code/aproject"));
}

#[test]
fn filters_without_patterns_skip_only_hidden_entries() {
    let filters = Filters::new();
    assert!(!filters.should_skip(&dir("/code/aproject")));
    assert!(!filters.should_skip(&dir("")));
    assert!(filters.should_skip(&dir("/code/.cache")));
    assert!(!filters.should_skip(&dir("/code/.cache/inner")));
}

#[test]
fn excluded_paths_are_skipped() {
    let filters = Filters::compile(strings(&["ignored"]), Vec::new()).unwrap();
    assert!(filters.should_skip(&dir("/code/ignored")));
    assert!(filters.should_skip(&dir("/code/ignored_but_included")));
    assert!(filters.should_skip(&dir("/code/ignored/inner")));
    assert!(!filters.should_skip(&dir("/code/aproject")));
}

#[test]
fn include_overrides_exclude() {
    let filters = Filters::compile(strings(&["ignored"]), strings(&["included"])).unwrap();
    assert!(filters.should_skip(&dir("/code/ignored")));
    assert!(!filters.should_skip(&dir("/code/ignored_but_included")));
    assert!(!filters.should_skip(&dir("/code/aproject")));
    assert!(!filters.should_skip(&dir("/code/included")));
}

#[test]
fn include_does_not_reveal_hidden_entries() {
    let filters = Filters::compile(Vec::new(), strings(&["cache"])).unwrap();
    assert!(filters.should_skip(&dir("/code/.cache")));
    let both = Filters::compile(strings(&["cache"]), strings(&["cache"])).unwrap();
    assert!(both.should_skip(&dir("/code/.cache")));
    assert!(!both.should_skip(&dir("/code/cache")));
}

#[test]
fn patterns_match_the_path_and_not_only_the_name() {
    let filters = Filters::compile(strings(&["^/vendor/"]), Vec::new()).unwrap();
    assert!(filters.should_skip(&dir("/vendor/lib")));
    assert!(!filters.should_skip(&dir("/code/vendor/lib")));
}

#[test]
fn with_excludes_and_with_includes_replace_the_sets() {
    let filters = Filters::new()
        .with_excludes(RegexSet::new(["ignored"]).unwrap())
        .with_includes(RegexSet::new(["included"]).unwrap());
    assert!(filters.should_skip(&dir("/code/ignored")));
    assert!(!filters.should_skip(&dir("/code/ignored_but_included")));
    let reopened = filters.with_excludes(RegexSet::empty());
    assert!(!reopened.should_skip(&dir("/code/ignored")));
}

#[test]
fn compile_names_the_first_invalid_pattern() {
    match Filters::compile(strings(&["fine", "br(oken", "al[so"]), strings(&["(("])) {
        Err(PatternError::Invalid { pattern, reason }) => {
            assert_eq!(pattern, "br(oken");
            assert_eq!(reason, Regex::new("br(oken").unwrap_err().to_string());
        }
        Err(other) => panic!("unexpected error {:?}", other),
        Ok(_) => panic!("a broken pattern compiled"),
    }
}

#[test]
fn compile_reports_the_include_list_when_the_excludes_compile() {
    match Filters::compile(strings(&["fine"]), strings(&["ok", "(("])) {
        Err(PatternError::Invalid { pattern, reason }) => {
            assert_eq!(pattern, "((");
            assert_eq!(reason, Regex::new("((").unwrap_err().to_string());
        }
        Err(other) => panic!("unexpected error {:?}", other),
        Ok(_) => panic!("a broken pattern compiled"),
    }
}

#[test]
fn regex_from_patterns_rejects_a_list_too_large_as_a_whole() {
    let one = r"\w{100}".to_string();
    assert!(Regex::new(&one).is_ok());
    let many: Vec<String> = (0..4).map(|_| one.clone()).collect();
    match regex_from_patterns(many.clone()) {
        Err(PatternError::Unbuildable { reason }) => {
            assert_eq!(reason, RegexSet::new(&many).unwrap_err().to_string());
        }
        Err(other) => panic!("unexpected error {:?}", other),
        Ok(_) => panic!("the list compiled"),
    }
}
