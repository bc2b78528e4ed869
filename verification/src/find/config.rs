//! What a caller configures: where to search and which patterns to apply.

use vstd::prelude::*;

verus! {

/// The roots to search and the optional pattern lists, as plain text.
/// Nothing is compiled or checked here.
#[derive(Debug, PartialEq, Eq)]
pub struct Config {
    /// The root directories, in the order given.
    pub code_dirs: Vec<String>,
    /// Patterns of paths to leave out, if any were given.
    pub excludes: Option<Vec<String>>,
    /// Patterns of paths to keep although an exclude pattern matches them,
    /// if any were given.
    pub includes: Option<Vec<String>>,
}

impl Config {
    /// A configuration with the given roots and no patterns.
    pub fn new(code_dirs: Vec<String>) -> (cfg: Config)
        ensures
            cfg.code_dirs == code_dirs,
            cfg.excludes is None,
            cfg.includes is None,
    {
        Config { code_dirs, excludes: None, includes: None }
    }

    /// A configuration with a single root and no patterns.
    pub fn one(code_dir: String) -> (cfg: Config)
        ensures
            cfg.code_dirs@ == seq![code_dir],
            cfg.excludes is None,
            cfg.includes is None,
    {
        let mut code_dirs: Vec<String> = Vec::new();
        code_dirs.push(code_dir);
        Config::new(code_dirs)
    }

    /// The same configuration with `excludes` as its exclude patterns.
    pub fn with_excludes(self, excludes: Vec<String>) -> (cfg: Config)
        ensures
            cfg.code_dirs == self.code_dirs,
            cfg.excludes == Some(excludes),
            cfg.includes == self.includes,
    {
        Config { code_dirs: self.code_dirs, excludes: Some(excludes), includes: self.includes }
    }

    /// The same configuration with `includes` as its include patterns.
    pub fn with_includes(self, includes: Vec<String>) -> (cfg: Config)
        ensures
            cfg.code_dirs == self.code_dirs,
            cfg.excludes == self.excludes,
            cfg.includes == Some(includes),
    {
        Config { code_dirs: self.code_dirs, excludes: self.excludes, includes: Some(includes) }
    }
}

} // verus!
