//! What the directory scan keeps: the rules on which directories it skips and
//! which it records as projects, and the cache of what it found.
use vstd::prelude::*;
use crate::frecency::{listed, paths_of};

verus! {

/// The directories found by the last scan.
pub struct Cache {
    pub directories: Vec<String>,
}

impl Cache {
    /// A cache that holds nothing.
    pub fn new() -> (r: Cache)
        ensures
            r.directories@.len() == 0,
    {
        Cache { directories: Vec::new() }
    }
}

/// Names of directories that the scan never enters.
pub open spec fn ignored_names() -> Seq<Seq<char>> {
    seq![
        "node_modules"@,
        "target"@,
        "dist"@,
        "build"@,
        "vendor"@,
        "__pycache__"@,
        ".git"@,
        ".next"@,
        ".turbo"@,
        ".cache"@,
        ".npm"@,
        ".pnpm"@,
        "coverage"@,
        ".nyc_output"@,
    ]
}

/// Names of files or directories whose presence makes a directory a project.
pub open spec fn marker_names() -> Seq<Seq<char>> {
    seq![
        ".git"@,
        "package.json"@,
        "Cargo.toml"@,
        "go.mod"@,
        "pyproject.toml"@,
        "setup.py"@,
        "Makefile"@,
        "CMakeLists.txt"@,
        "pom.xml"@,
        "build.gradle"@,
        "mix.exs"@,
        "deno.json"@,
        "bun.lockb"@,
    ]
}

fn ignored_list() -> (r: Vec<String>)
    ensures
        paths_of(r@) == ignored_names(),
{
    let r = vec![
        "node_modules".to_string(),
        "target".to_string(),
        "dist".to_string(),
        "build".to_string(),
        "vendor".to_string(),
        "__pycache__".to_string(),
        ".git".to_string(),
        ".next".to_string(),
        ".turbo".to_string(),
        ".cache".to_string(),
        ".npm".to_string(),
        ".pnpm".to_string(),
        "coverage".to_string(),
        ".nyc_output".to_string(),
    ];
    assert(paths_of(r@) =~= ignored_names());
    r
}

/// Whether the scan skips a directory entry named `name`.
pub fn is_ignored(name: &str) -> (r: bool)
    ensures
        r == ignored_names().contains(name@),
{
    let names = ignored_list();
    listed(&names, &name.to_string())
}

/// The names whose presence in a directory makes it a project.
pub fn project_markers() -> (r: Vec<String>)
    ensures
        paths_of(r@) == marker_names(),
{
    let r = vec![
        ".git".to_string(),
        "package.json".to_string(),
        "Cargo.toml".to_string(),
        "go.mod".to_string(),
        "pyproject.toml".to_string(),
        "setup.py".to_string(),
        "Makefile".to_string(),
        "CMakeLists.txt".to_string(),
        "pom.xml".to_string(),
        "build.gradle".to_string(),
        "mix.exs".to_string(),
        "deno.json".to_string(),
        "bun.lockb".to_string(),
    ];
    assert(paths_of(r@) =~= marker_names());
    r
}

} // verus!
