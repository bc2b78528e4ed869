use projector::find::config::Config;

fn strings(items: &[&str]) -> Vec<String> {
    items.iter().map(|s| s.to_string()).collect()
}

#[test]
fn new_config_has_no_patterns() {
    let cfg = Config::new(strings(&["/code", "/work"]));
    assert_eq!(cfg.code_dirs, strings(&["/code", "/work"]));
    assert_eq!(cfg.excludes, None);
    assert_eq!(cfg.includes, None);
}

#[test]
fn one_holds_a_single_root() {
    let cfg = Config::one("/code".to_string());
    assert_eq!(cfg, Config::new(strings(&["/code"])));
}

#[test]
fn with_excludes_sets_only_the_excludes() {
    let cfg = Config::new(strings(&["/code"])).with_excludes(strings(&["ignored"]));
    assert_eq!(cfg.code_dirs, strings(&["/code"]));
    assert_eq!(cfg.excludes, Some(strings(&["ignored"])));
    assert_eq!(cfg.includes, None);
}

#[test]
fn with_includes_sets_only_the_includes() {
    let cfg = Config::new(strings(&["/code"]))
        .with_excludes(strings(&["ignored"]))
        .with_includes(strings(&["included", "kept"]));
    assert_eq!(cfg.code_dirs, strings(&["/code"]));
    assert_eq!(cfg.excludes, Some(strings(&["ignored"])));
    assert_eq!(cfg.includes, Some(strings(&["included", "kept"])));
}

#[test]
fn later_patterns_replace_earlier_ones() {
    let cfg = Config::one("/code".to_string())
        .with_excludes(strings(&["a"]))
        .with_excludes(strings(&["b"]));
    assert_eq!(cfg.excludes, Some(strings(&["b"])));
}
