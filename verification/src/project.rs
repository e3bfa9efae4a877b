//! The layout of a project on disk.
use crate::path;
use crate::remapping::Remapping;
use foundry_compilers::artifacts::SolcLanguage;
use foundry_compilers::ProjectPathsConfig;
use std::path::{Path, PathBuf};
use vstd::prelude::*;

verus! {

/// Where a project keeps its files.
pub struct ProjectPaths {
    /// Project root.
    pub root: String,
    /// Where the sources are.
    pub sources: String,
    /// Where the sources lie on disk, if they could be found.
    pub canonical_sources: Option<String>,
    /// Where the tests are.
    pub tests: String,
    /// Where the scripts are.
    pub scripts: String,
    /// The compiler remappings.
    pub remappings: Vec<Remapping>,
}

/// Whether `path` begins with `dir`, or with what `Path::strip_prefix` leaves of `dir` below `root`.
pub open spec fn below_dir(path: Seq<char>, dir: Seq<char>, root: Seq<char>) -> bool {
    ||| path::path_components(dir).is_prefix_of(path::path_components(path))
    ||| path::path_strip_prefix(dir, root) matches Some(rest) && path::path_components(
        rest,
    ).is_prefix_of(path::path_components(path))
}

impl ProjectPaths {
    /// Whether `path` is neither a test nor a script of the project.
    pub open spec fn is_source(self, path: Seq<char>) -> bool {
        &&& !below_dir(path, self.tests@, self.root@)
        &&& !below_dir(path, self.scripts@, self.root@)
    }

    /// `ProjectPathsConfig::is_source_file`: true of a path that lies neither in the directory of
    /// the tests nor in that of the scripts, each as configured or relative to the root. Only
    /// whole components of a path count.
    #[verifier::external_body]
    pub(crate) fn is_source_file(&self, path: &str) -> (source: bool)
        ensures
            source == self.is_source(path@),
    {
        let (none, no_paths) = (PathBuf::new(), Default::default());
        ProjectPathsConfig::<SolcLanguage> {
            root: PathBuf::from(&self.root),
            sources: PathBuf::from(&self.sources),
            tests: PathBuf::from(&self.tests),
            scripts: PathBuf::from(&self.scripts),
            cache: none.clone(), artifacts: none.clone(), build_infos: none,
            libraries: Vec::new(), remappings: Vec::new(),
            include_paths: no_paths, allowed_paths: Default::default(),
            _l: std::marker::PhantomData,
        }.is_source_file(Path::new(path))
    }
}

} // verus!
