use projector::commands::find::best_index;
use projector::commands::find::compile_search;
use projector::commands::find::find;
use projector::commands::find::get_rightmost_match;
use projector::commands::find::is_better;
use projector::commands::find::last_match_percent;
use projector::commands::find::matched;
use projector::commands::find::search;
use projector::commands::find::SearchOutcome;
use projector::commands::ratio::MatchRatio;
use projector::find::error::PatternError;
use regex::Regex;

fn strings(items: &[&str]) -> Vec<String> {
    items.iter().map(|s| s.to_string()).collect()
}

#[test]
fn test_last_match_percent() {
    let rgx = Regex::new("mat").unwrap();
    let path1 = last_match_percent("/home/mathewrobinson/Code/cdb", &rgx);
    let path2 = last_match_percent("/home/mathewrobinson/Code/mat", &rgx);
    assert!(path2 > path1);
}

#[test]
fn test_last_match_percent_returns_percentage() {
    let rgx = Regex::new("mat").unwrap();
    let path1 = last_match_percent(
        "/Users/mathewrobinson/Work/applications/core_user_to_hubspot_client_match",
        &rgx,
    );
    let path2 = last_match_percent("/Users/mathewrobinson/Code/mat", &rgx);
    assert!(path2 > path1);
}

#[test]
fn test_get_rightmost_match() {
    let projects = vec![
        "/Users/mathewrobinson/Work/applications/core_user_to_hubspot_client_match".to_string(),
        "/Users/mathewrobinson/Code/mat".to_string(),
        "/Users/mathewrobinson/Code/cdb".to_string(),
    ];
    let rgx = Regex::new("mat").unwrap();

    assert_eq!(
        get_rightmost_match(&projects, false, &rgx),
        Some(&"/Users/mathewrobinson/Code/mat".to_string())
    )
}

#[test]
fn last_match_percent_counts_the_end_of_the_last_match() {
    let rgx = Regex::new("suffix").unwrap();
    let ratio = last_match_percent("/some/path/suffix-ex", &rgx);
    assert_eq!(ratio.end, 17);
    assert_eq!(ratio.len, 20);

    let twice = last_match_percent("suffix/suffix/x", &rgx);
    assert_eq!(twice.end, 13);
    assert_eq!(twice.len, 15);

    let whole = last_match_percent("/some/path/projecta-suffix", &rgx);
    assert_eq!(whole.end, 26);
    assert_eq!(whole.len, 26);
}

#[test]
fn last_match_percent_counts_characters() {
    let rgx = Regex::new("b").unwrap();
    let ratio = last_match_percent("\u{e9}b\u{e9}", &rgx);
    assert_eq!(ratio.end, 2);
    assert_eq!(ratio.len, 3);

    let mat = Regex::new("mat").unwrap();
    let whole = last_match_percent("/\u{65e5}\u{672c}/mat", &mat);
    assert_eq!(whole.end, 7);
    assert_eq!(whole.len, 7);

    let wide = Regex::new("\u{1f600}").unwrap();
    let face = last_match_percent("a\u{1f600}bc", &wide);
    assert_eq!(face.end, 2);
    assert_eq!(face.len, 4);
}

#[test]
fn rightmost_match_measures_in_characters() {
    let rgx = Regex::new("x").unwrap();
    let projects = strings(&["\u{e9}\u{e9}\u{e9}x\u{e9}", "aaax"]);
    assert_eq!(get_rightmost_match(&projects, false, &rgx), Some(&"aaax".to_string()));
    assert_eq!(
        get_rightmost_match(&projects, true, &rgx),
        Some(&"\u{e9}\u{e9}\u{e9}x\u{e9}".to_string())
    );

    let first = Regex::new("^.").unwrap();
    let halves = strings(&["\u{e9}x", "ab"]);
    assert_eq!(get_rightmost_match(&halves, true, &first), Some(&"\u{e9}x".to_string()));
    assert_eq!(get_rightmost_match(&halves, false, &first), Some(&"\u{e9}x".to_string()));
}

#[test]
fn last_match_percent_without_a_match_falls_back_to_offset_one() {
    let rgx = Regex::new("z").unwrap();
    let ratio = last_match_percent("abc", &rgx);
    assert_eq!(ratio.end, 1);
    assert_eq!(ratio.len, 3);
}

#[test]
fn last_match_percent_of_an_empty_text() {
    let rgx = Regex::new("z").unwrap();
    let ratio = last_match_percent("", &rgx);
    assert_eq!(ratio.end, 1);
    assert_eq!(ratio.len, 0);
    assert!(ratio == MatchRatio { end: 1, len: 1 });
    assert!(ratio > MatchRatio { end: 1, len: 2 });
}

#[test]
fn ratios_compare_as_fractions() {
    let half = MatchRatio { end: 1, len: 2 };
    let also_half = MatchRatio { end: 2, len: 4 };
    let two_thirds = MatchRatio { end: 2, len: 3 };
    assert!(half.is_below(&two_thirds));
    assert!(!two_thirds.is_below(&half));
    assert!(!half.is_below(&also_half));
    assert!(half.is_level(&also_half));
    assert!(!half.is_level(&two_thirds));
    assert!(half < two_thirds);
    assert!(two_thirds > half);
    assert!(half == also_half);
    assert!(half <= also_half);
    assert!(half != two_thirds);
}

#[test]
fn ratios_compare_without_overflow() {
    let big = MatchRatio { end: usize::MAX, len: usize::MAX };
    let nearly = MatchRatio { end: usize::MAX - 1, len: usize::MAX };
    assert!(nearly.is_below(&big));
    assert!(!big.is_below(&nearly));
    assert!(big.is_level(&MatchRatio { end: 1, len: 1 }));
}

#[test]
fn is_better_orders_by_ratio_then_by_length() {
    let half = MatchRatio { end: 1, len: 2 };
    let long_half = MatchRatio { end: 2, len: 4 };
    let full = MatchRatio { end: 3, len: 3 };
    assert!(is_better(&full, &half, false));
    assert!(!is_better(&half, &full, false));
    assert!(is_better(&half, &full, true));
    assert!(!is_better(&full, &half, true));
    assert!(is_better(&half, &long_half, false));
    assert!(is_better(&half, &long_half, true));
    assert!(!is_better(&long_half, &half, false));
    assert!(!is_better(&long_half, &half, true));
    assert!(!is_better(&half, &half, false));
    assert!(!is_better(&half, &half, true));
}

#[test]
fn best_index_picks_the_first_of_the_best() {
    let scores = vec![
        MatchRatio { end: 2, len: 4 },
        MatchRatio { end: 3, len: 3 },
        MatchRatio { end: 1, len: 2 },
        MatchRatio { end: 3, len: 3 },
        MatchRatio { end: 5, len: 5 },
    ];
    assert_eq!(best_index(&scores, false), Some(1));
    assert_eq!(best_index(&scores, true), Some(2));
    assert_eq!(best_index(&Vec::new(), false), None);
    assert_eq!(best_index(&Vec::new(), true), None);
    assert_eq!(best_index(&vec![MatchRatio { end: 0, len: 0 }], false), Some(0));
}

#[test]
fn rightmost_match_prefers_the_match_at_the_end() {
    let projects = strings(&[
        "/a/b/project-suffix",
        "/a/b/suffix-ex",
        "/a/b/project-suffix-in-the-middle",
    ]);
    let rgx = Regex::new("suffix").unwrap();
    assert_eq!(
        get_rightmost_match(&projects, false, &rgx),
        Some(&"/a/b/project-suffix".to_string())
    );
}

#[test]
fn rightmost_match_in_reverse_prefers_the_leftmost_match() {
    let projects = strings(&[
        "/a/b/project-suffix",
        "/a/b/suffix-ex",
        "/a/b/project-suffix-in-the-middle",
    ]);
    let rgx = Regex::new("suffix").unwrap();
    assert_eq!(
        get_rightmost_match(&projects, true, &rgx),
        Some(&"/a/b/project-suffix-in-the-middle".to_string())
    );
}

#[test]
fn rightmost_match_breaks_ties_by_length() {
    let rgx = Regex::new("suffix").unwrap();
    let projects = strings(&["/some/path/projecta-suffix", "/some/path/pa-suffix"]);
    assert_eq!(
        get_rightmost_match(&projects, false, &rgx),
        Some(&"/some/path/pa-suffix".to_string())
    );
    let swapped = strings(&["/some/path/pa-suffix", "/some/path/projecta-suffix"]);
    assert_eq!(
        get_rightmost_match(&swapped, false, &rgx),
        Some(&"/some/path/pa-suffix".to_string())
    );

    let a = Regex::new("a").unwrap();
    let halves = strings(&["xayy", "ab"]);
    assert_eq!(get_rightmost_match(&halves, false, &a), Some(&"ab".to_string()));
    assert_eq!(get_rightmost_match(&halves, true, &a), Some(&"ab".to_string()));
}

#[test]
fn rightmost_match_of_nothing_is_none() {
    let rgx = Regex::new("suffix").unwrap();
    let projects: Vec<String> = Vec::new();
    assert_eq!(get_rightmost_match(&projects, false, &rgx), None);
    assert_eq!(get_rightmost_match(&projects, true, &rgx), None);
}

#[test]
fn matched_keeps_the_hits_in_order() {
    let rgx = Regex::new("pro").unwrap();
    let projects = strings(&["/code/aproject", "/code/tool", "/code/nested/anotherproject"]);
    assert_eq!(
        matched(&projects, &rgx),
        strings(&["/code/aproject", "/code/nested/anotherproject"])
    );
    assert_eq!(matched(&projects, &Regex::new("zzz").unwrap()), Vec::<String>::new());
}

#[test]
fn search_without_a_hit_reports_no_match() {
    let rgx = Regex::new("zzz").unwrap();
    let projects = strings(&["/code/aproject", "/code/tool"]);
    assert!(matches!(search(&projects, &rgx, false, false), SearchOutcome::NoMatch));
    assert!(matches!(search(&projects, &rgx, true, true), SearchOutcome::NoMatch));
    assert!(matches!(search(&Vec::new(), &rgx, false, false), SearchOutcome::NoMatch));
}

#[test]
fn search_verbose_lists_every_hit() {
    let rgx = Regex::new("[pt]").unwrap();
    let projects = strings(&["/code/aproject", "/code/xyz", "/code/tool"]);
    match search(&projects, &rgx, false, true) {
        SearchOutcome::Matches(all) => {
            assert_eq!(all, strings(&["/code/aproject", "/code/tool"]))
        }
        other => panic!("unexpected outcome {:?}", other),
    }
}

#[test]
fn search_picks_the_best_hit() {
    let rgx = Regex::new("suffix").unwrap();
    let projects = strings(&[
        "/a/b/unrelated",
        "/a/b/project-suffix",
        "/a/b/suffix-ex",
        "/a/b/project-suffix-in-the-middle",
    ]);
    match search(&projects, &rgx, false, false) {
        SearchOutcome::Best(found) => assert_eq!(found, "/a/b/project-suffix"),
        other => panic!("unexpected outcome {:?}", other),
    }
    match search(&projects, &rgx, true, false) {
        SearchOutcome::Best(found) => assert_eq!(found, "/a/b/project-suffix-in-the-middle"),
        other => panic!("unexpected outcome {:?}", other),
    }
}

#[test]
fn search_with_one_hit_returns_it() {
    let rgx = Regex::new("tool").unwrap();
    let projects = strings(&["/code/aproject", "/code/tool"]);
    match search(&projects, &rgx, false, false) {
        SearchOutcome::Best(found) => assert_eq!(found, "/code/tool"),
        other => panic!("unexpected outcome {:?}", other),
    }
}

#[test]
fn find_compiles_the_term_and_searches() {
    let projects = strings(&["/code/aproject", "/code/tool", "/code/nested/anotherproject"]);
    match find(&projects, "project$", false, false) {
        Ok(SearchOutcome::Best(found)) => assert_eq!(found, "/code/aproject"),
        other => panic!("unexpected outcome {:?}", other),
    }
    match find(&projects, "project$", false, true) {
        Ok(SearchOutcome::Matches(all)) => {
            assert_eq!(all, strings(&["/code/aproject", "/code/nested/anotherproject"]))
        }
        other => panic!("unexpected outcome {:?}", other),
    }
    assert!(matches!(find(&projects, "nothing", false, false), Ok(SearchOutcome::NoMatch)));
}

#[test]
fn find_rejects_a_term_that_is_no_expression() {
    let projects = strings(&["/code/aproject"]);
    match find(&projects, "pro(ject", false, false) {
        Err(PatternError::Invalid { pattern, reason }) => {
            assert_eq!(pattern, "pro(ject");
            assert!(!reason.is_empty());
            assert_eq!(reason, Regex::new("pro(ject").unwrap_err().to_string());
        }
        other => panic!("unexpected outcome {:?}", other),
    }
}

#[test]
fn compile_search_builds_the_expression_of_the_term() {
    let rgx = compile_search("^/code/[a-c]").unwrap();
    assert_eq!(rgx.as_str(), "^/code/[a-c]");
    assert!(rgx.is_match("/code/aproject"));
    assert!(!rgx.is_match("/code/tool"));
    match compile_search("[") {
        Err(e) => {
            assert!(matches!(e, PatternError::Invalid { .. }));
            assert_eq!(e.reason(), &Regex::new("[").unwrap_err().to_string());
        }
        Ok(_) => panic!("an unclosed class compiled"),
    }
}
