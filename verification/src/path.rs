//! File paths, as text that `std::path` reads on the platform the crate is built for.
use crate::text;
use path_slash::PathExt;
use vstd::prelude::*;

verus! {

/// One component of a path.
pub enum PathComponent {
    /// A drive or share prefix, as `std::path::Prefix` reads it.
    Prefix(String),
    /// The root of the file system, or of the prefix before it.
    RootDir,
    /// `.` at the start of a path.
    CurDir,
    /// `..`.
    ParentDir,
    /// A file or directory name.
    Normal(String),
}

/// One component of a path, with its text as characters.
pub enum ComponentView {
    Prefix(Seq<char>),
    RootDir,
    CurDir,
    ParentDir,
    Normal(Seq<char>),
}

/// What a path denotes: two paths are the same when their components are.
pub type PathId = Seq<ComponentView>;

impl View for PathComponent {
    type V = ComponentView;

    open spec fn view(&self) -> ComponentView {
        match *self {
            PathComponent::Prefix(text) => ComponentView::Prefix(text@),
            PathComponent::RootDir => ComponentView::RootDir,
            PathComponent::CurDir => ComponentView::CurDir,
            PathComponent::ParentDir => ComponentView::ParentDir,
            PathComponent::Normal(text) => ComponentView::Normal(text@),
        }
    }
}

/// The components in `parts`, with their text as characters.
pub open spec fn component_views(parts: Seq<PathComponent>) -> Seq<ComponentView> {
    parts.map_values(|part: PathComponent| part@)
}

/// The components into which `Path::components` splits `path`.
pub uninterp spec fn path_components(path: Seq<char>) -> Seq<ComponentView>;

/// The path that `Path::join` makes of `base` and `path`.
pub uninterp spec fn path_join(base: Seq<char>, path: Seq<char>) -> Seq<char>;

/// The path that `Path::strip_prefix` leaves of `path` behind `base`, if `base` is a prefix of it.
pub uninterp spec fn path_strip_prefix(path: Seq<char>, base: Seq<char>) -> Option<Seq<char>>;

/// `path` with the separators that `PathExt::to_slash_lossy` gives it.
pub uninterp spec fn path_to_slash(path: Seq<char>) -> Seq<char>;

/// `Path::components`: the components of `path`, one for one. A prefix is taken by what it was read
/// as, so that two spellings of the same drive are one.
#[verifier::external_body]
pub(crate) fn components(path: &str) -> (parts: Vec<PathComponent>)
    ensures
        component_views(parts@) == path_components(path@),
{
    let mut parts = Vec::new();
    for component in std::path::Path::new(path).components() {
        parts.push(match component {
            std::path::Component::Prefix(prefix) => PathComponent::Prefix(
                format!("{:?}", prefix.kind()),
            ),
            std::path::Component::RootDir => PathComponent::RootDir,
            std::path::Component::CurDir => PathComponent::CurDir,
            std::path::Component::ParentDir => PathComponent::ParentDir,
            std::path::Component::Normal(name) => PathComponent::Normal(
                name.to_string_lossy().into_owned(),
            ),
        });
    }
    parts
}

/// Whether a path with the components `parts` begins with a drive or share prefix.
pub open spec fn prefixed(parts: PathId) -> bool {
    parts.len() > 0 && parts[0] is Prefix
}

/// Whether a path with the components `parts` begins with a root, behind a prefix or not.
pub open spec fn rooted(parts: PathId) -> bool {
    ||| parts.len() > 0 && parts[0] is RootDir
    ||| parts.len() > 1 && parts[0] is Prefix && parts[1] is RootDir
}

/// `Path::join`: `path` below `base`. A path with a prefix of its own stands for itself, and so does
/// one with a root below a base without a prefix. Below a base with a root, what was joined stands
/// for itself when it is joined again.
#[verifier::external_body]
pub(crate) fn join(base: &str, path: &str) -> (joined: String)
    ensures
        joined@ == path_join(base@, path@),
        prefixed(path_components(path@)) ==> joined@ == path@,
        rooted(path_components(path@)) && !prefixed(path_components(base@)) ==> joined@ == path@,
        rooted(path_components(base@)) ==> path_join(base@, joined@) == joined@,
{
    std::path::Path::new(base).join(path).to_string_lossy().into_owned()
}

/// `Path::strip_prefix`: what is left of `path` behind `base`. There is a rest exactly when the
/// components of `base` are the first components of `path`. Nothing is said of the rest joined onto
/// `base`: behind a verbatim prefix, joining resolves dots that stand in `path`.
#[verifier::external_body]
pub(crate) fn strip_prefix(path: &str, base: &str) -> (rest: Option<String>)
    ensures
        rest is Some <==> path_components(base@).is_prefix_of(path_components(path@)),
        text::option_view(rest) == path_strip_prefix(path@, base@),
{
    match std::path::Path::new(path).strip_prefix(base) {
        Ok(rest) => Some(rest.to_string_lossy().into_owned()),
        Err(_) => None,
    }
}

/// `PathExt::to_slash_lossy`: `path` with `/` between its components.
#[verifier::external_body]
pub(crate) fn to_slash(path: &str) -> (text: String)
    ensures
        text@ == path_to_slash(path@),
{
    std::path::Path::new(path).to_slash_lossy().into_owned()
}

fn same_component(a: &PathComponent, b: &PathComponent) -> (same: bool)
    ensures
        same == (a@ == b@),
{
    match (a, b) {
        (PathComponent::Prefix(x), PathComponent::Prefix(y)) => *x == *y,
        (PathComponent::Normal(x), PathComponent::Normal(y)) => *x == *y,
        (PathComponent::RootDir, PathComponent::RootDir) => true,
        (PathComponent::CurDir, PathComponent::CurDir) => true,
        (PathComponent::ParentDir, PathComponent::ParentDir) => true,
        _ => false,
    }
}

/// Whether the components of `dir` are the first components of `path`.
pub fn components_start_with(path: &Vec<PathComponent>, dir: &Vec<PathComponent>) -> (inside: bool)
    ensures
        inside == component_views(dir@).is_prefix_of(component_views(path@)),
{
    let ghost whole = component_views(path@);
    let ghost front = component_views(dir@);
    if path.len() < dir.len() {
        return false;
    }
    let mut i: usize = 0;
    while i < dir.len()
        invariant
            whole == component_views(path@),
            front == component_views(dir@),
            i <= dir@.len() <= path@.len(),
            forall|j: int| 0 <= j < i ==> front[j] == whole[j],
        decreases dir@.len() - i,
    {
        if !same_component(&path[i], &dir[i]) {
            assert(whole.subrange(0, front.len() as int)[i as int] == whole[i as int]);
            return false;
        }
        i = i + 1;
    }
    assert(front =~= whole.subrange(0, front.len() as int));
    true
}

/// Whether the two paths have the same components.
pub fn same_path(a: &str, b: &str) -> (same: bool)
    ensures
        same == (path_components(a@) == path_components(b@)),
{
    let left = components(a);
    let right = components(b);
    let same = left.len() == right.len() && components_start_with(&left, &right);
    proof {
        let x = path_components(a@);
        let y = path_components(b@);
        if same {
            assert(x.subrange(0, x.len() as int) =~= x);
        }
        if x == y {
            assert(x.subrange(0, x.len() as int) =~= x);
        }
    }
    same
}

/// The components of `parts` with `.` dropped and every `..` resolved against the name before it.
/// A `..` with no name before it is dropped.
pub open spec fn normalized(parts: Seq<ComponentView>) -> Seq<ComponentView>
    decreases parts.len(),
{
    if parts.len() == 0 {
        Seq::empty()
    } else {
        let front = normalized(parts.drop_last());
        match parts.last() {
            ComponentView::CurDir => front,
            ComponentView::ParentDir => if front.len() > 0 && front.last() is Normal {
                front.drop_last()
            } else {
                front
            },
            part => front.push(part),
        }
    }
}

/// The components of `parts` with `.` and `..` resolved: see [`normalized`].
pub fn normalize_components(parts: &Vec<PathComponent>) -> (result: Vec<PathComponent>)
    ensures
        component_views(result@) == normalized(component_views(parts@)),
{
    let ghost all = component_views(parts@);
    let mut result: Vec<PathComponent> = Vec::new();
    let mut i: usize = 0;
    assert(component_views(result@) =~= normalized(all.take(0)));
    while i < parts.len()
        invariant
            component_views(parts@) == all,
            i <= parts@.len(),
            component_views(result@) == normalized(all.take(i as int)),
        decreases parts@.len() - i,
    {
        let ghost front = component_views(result@);
        assert(all.take(i + 1).drop_last() =~= all.take(i as int));
        assert(all.take(i + 1).last() == parts@[i as int]@);
        match &parts[i] {
            PathComponent::CurDir => {},
            PathComponent::ParentDir => {
                let drop = result.len() > 0 && is_normal(&result[result.len() - 1]);
                if drop {
                    assert(front.last() is Normal);
                    result.pop();
                    assert(component_views(result@) =~= front.drop_last());
                } else {
                    assert(front.len() > 0 ==> front.last() == result@.last()@);
                }
            },
            part => {
                let copy = copy_component(part);
                result.push(copy);
                assert(component_views(result@) =~= front.push(parts@[i as int]@));
            },
        }
        i = i + 1;
    }
    assert(all.take(i as int) =~= all);
    result
}

/// The components of `path` with `.` and `..` resolved, without a look at the file system.
pub fn normalize_path(path: &str) -> (result: Vec<PathComponent>)
    ensures
        component_views(result@) == normalized(path_components(path@)),
{
    normalize_components(&components(path))
}

fn is_normal(part: &PathComponent) -> (normal: bool)
    ensures
        normal == (part@ is Normal),
{
    match part {
        PathComponent::Normal(_) => true,
        _ => false,
    }
}

fn copy_component(part: &PathComponent) -> (copy: PathComponent)
    ensures
        copy@ == part@,
{
    match part {
        PathComponent::Prefix(text) => PathComponent::Prefix(text.clone()),
        PathComponent::RootDir => PathComponent::RootDir,
        PathComponent::CurDir => PathComponent::CurDir,
        PathComponent::ParentDir => PathComponent::ParentDir,
        PathComponent::Normal(text) => PathComponent::Normal(text.clone()),
    }
}

/// What `path` denotes below `root`, with `.` and `..` resolved.
pub open spec fn resolved(root: Seq<char>, path: Seq<char>) -> PathId {
    normalized(path_components(path_join(root, path)))
}

/// Whether `path` lies in `dir`, by their components or by where they lie on disk.
pub open spec fn lies_in(
    path: PathId,
    dir: PathId,
    canonical_path: Option<PathId>,
    canonical_dir: Option<PathId>,
) -> bool {
    ||| dir.is_prefix_of(path)
    ||| {
        &&& canonical_path is Some
        &&& canonical_dir is Some
        &&& canonical_dir->0.is_prefix_of(canonical_path->0)
    }
}

/// The components of a path that may be missing.
pub open spec fn option_components(path: Option<Seq<char>>) -> Option<PathId> {
    match path {
        Some(path) => Some(path_components(path)),
        None => None,
    }
}

/// Whether `path` lies in `dir`, by their text below `root` or by where they lie on disk.
pub open spec fn path_in_dir(
    path: Seq<char>,
    dir: Seq<char>,
    root: Seq<char>,
    canonical_path: Option<Seq<char>>,
    canonical_dir: Option<Seq<char>>,
) -> bool {
    lies_in(
        resolved(root, path),
        resolved(root, dir),
        option_components(canonical_path),
        option_components(canonical_dir),
    )
}

/// Whether `path` lies in `dir` or not, however the two are written: as they stand, or joined onto
/// `root`.
pub open spec fn spellings_agree(
    path: Seq<char>,
    dir: Seq<char>,
    root: Seq<char>,
    canonical_path: Option<Seq<char>>,
    canonical_dir: Option<Seq<char>>,
) -> bool {
    let inside = path_in_dir(path, dir, root, canonical_path, canonical_dir);
    let full_path = path_join(root, path);
    let full_dir = path_join(root, dir);
    &&& inside == path_in_dir(full_path, full_dir, root, canonical_path, canonical_dir)
    &&& inside == path_in_dir(full_path, dir, root, canonical_path, canonical_dir)
    &&& inside == path_in_dir(path, full_dir, root, canonical_path, canonical_dir)
}

/// The components in `parts`, if there are any, with their text as characters.
pub open spec fn option_views(parts: Option<Vec<PathComponent>>) -> Option<PathId> {
    match parts {
        Some(parts) => Some(component_views(parts@)),
        None => None,
    }
}

/// Whether `path` lies in `dir`, by their components or by where they lie on disk.
pub fn components_in_dir(
    path: &Vec<PathComponent>,
    dir: &Vec<PathComponent>,
    canonical_path: &Option<Vec<PathComponent>>,
    canonical_dir: &Option<Vec<PathComponent>>,
) -> (inside: bool)
    ensures
        inside == lies_in(
            component_views(path@),
            component_views(dir@),
            option_views(*canonical_path),
            option_views(*canonical_dir),
        ),
{
    if components_start_with(path, dir) {
        return true;
    }
    match (canonical_path, canonical_dir) {
        (Some(path), Some(dir)) => components_start_with(path, dir),
        _ => false,
    }
}

fn components_of(path: &Option<String>) -> (parts: Option<Vec<PathComponent>>)
    ensures
        option_views(parts) == option_components(text::option_view(*path)),
{
    match path {
        Some(path) => Some(components(path)),
        None => None,
    }
}

/// Whether `path` resolves within `dir`, accepting relative, absolute, and symlinked paths.
///
/// `canonical_path` and `canonical_dir` are where the two, resolved below `root_dir`, lie on disk;
/// either is `None` where it could not be found.
pub fn is_path_in_dir(
    path: &str,
    dir: &str,
    root_dir: &str,
    canonical_path: &Option<String>,
    canonical_dir: &Option<String>,
) -> (inside: bool)
    ensures
        inside == path_in_dir(
            path@,
            dir@,
            root_dir@,
            text::option_view(*canonical_path),
            text::option_view(*canonical_dir),
        ),
        // Below a root, it does not matter whether a path is written relative or absolute.
        rooted(path_components(root_dir@)) ==> spellings_agree(
            path@,
            dir@,
            root_dir@,
            text::option_view(*canonical_path),
            text::option_view(*canonical_dir),
        ),
{
    components_in_dir(
        &normalize_path(&join(root_dir, path)),
        &normalize_path(&join(root_dir, dir)),
        &components_of(canonical_path),
        &components_of(canonical_dir),
    )
}

} // verus!
