//! Paths, sets of paths, remappings, updates and text.
use bytecode_deps::path::{
    components_in_dir, components_start_with, is_path_in_dir, normalize_components, normalize_path,
    same_path, PathComponent,
};
use bytecode_deps::path_set::{contains_path, PathSet};
use bytecode_deps::remapping::{
    can_rewrite, keeps_imports, redirects_import, remapping_applies, remapping_matches_path, Remapping,
};
use bytecode_deps::text::{can_slice, chars_of, comes_before, decimal, slice, starts_with};
use bytecode_deps::updates::{Update, UpdateSet, Updates};

fn show(parts: &[PathComponent]) -> String {
    parts
        .iter()
        .map(|part| match part {
            PathComponent::Prefix(text) => format!("[{text}]"),
            PathComponent::RootDir => "<root>".to_string(),
            PathComponent::CurDir => ".".to_string(),
            PathComponent::ParentDir => "..".to_string(),
            PathComponent::Normal(text) => text.clone(),
        })
        .collect::<Vec<_>>()
        .join("|")
}

fn normal(name: &str) -> PathComponent {
    PathComponent::Normal(name.to_string())
}

fn paths(list: &[&str]) -> PathSet {
    let mut set = PathSet::new();
    for path in list {
        set.insert(path.to_string());
    }
    set
}

fn remapping(context: Option<&str>, name: &str, path: &str) -> Remapping {
    Remapping {
        context: context.map(|context| context.to_string()),
        name: name.to_string(),
        path: path.to_string(),
    }
}

fn update(start: usize, end: usize, text: &str) -> Update {
    Update { start, end, text: text.to_string() }
}

#[test]
fn paths_are_the_same_by_components() {
    assert!(same_path("src/Counter.sol", "src//Counter.sol"));
    assert!(same_path("src/./Counter.sol", "src/Counter.sol"));
    assert!(same_path("src/", "src"));
    assert!(!same_path("src/Counter.sol", "src/counter.sol"));
    assert!(!same_path("src/a", "src/a/b"));
    assert!(!same_path("/src", "src"));
    assert!(!same_path("./src", "src"));
    assert!(!same_path("src/../src", "src"));
}

#[test]
fn only_whole_components_count() {
    let path = vec![normal("src"), normal("Counter.sol")];
    assert!(components_start_with(&path, &vec![normal("src")]));
    assert!(components_start_with(&path, &vec![]));
    assert!(components_start_with(&path, &vec![normal("src"), normal("Counter.sol")]));
    assert!(!components_start_with(&path, &vec![normal("sr")]));
    assert!(!components_start_with(&path, &vec![PathComponent::RootDir, normal("src")]));
    assert!(!components_start_with(&vec![normal("src")], &path));
}

#[test]
fn normalization_resolves_dots() {
    assert_eq!(show(&normalize_path("/root/./src/../lib/x.sol")), "<root>|root|lib|x.sol");
    assert_eq!(show(&normalize_path("./src")), "src");
    assert_eq!(show(&normalize_path("a/b/../../c")), "c");
    assert_eq!(show(&normalize_path("")), "");
}

#[test]
fn normalization_drops_a_parent_without_a_name() {
    assert_eq!(show(&normalize_path("/..")), "<root>");
    assert_eq!(show(&normalize_path("../a")), "a");
    let parts = vec![PathComponent::RootDir, PathComponent::ParentDir, normal("a")];
    assert_eq!(show(&normalize_components(&parts)), "<root>|a");
}

#[test]
fn a_path_is_found_in_a_directory_however_it_is_written() {
    let inside = |path: &str, dir: &str| is_path_in_dir(path, dir, "/project", &None, &None);
    assert!(inside("src/Counter.sol", "/project/src"));
    assert!(inside("/project/src/Counter.sol", "src"));
    assert!(inside("/project/src/Counter.sol", "/project/src"));
    assert!(inside("lib/../src/Counter.sol", "src"));
    assert!(inside("src", "src"));
    assert!(!inside("src2/Counter.sol", "src"));
    assert!(!inside("src/../lib/Counter.sol", "src"));
    assert!(!inside("/other/src/Counter.sol", "src"));
}

#[test]
fn relative_and_absolute_spellings_agree() {
    let inside = |path: &str, dir: &str| is_path_in_dir(path, dir, "/project", &None, &None);
    for (path, dir) in [
        ("src/A.sol", "src"),
        ("lib/A.sol", "src"),
        ("lib/../src/A.sol", "./src"),
        ("/other/src/A.sol", "src"),
        ("", "src"),
    ] {
        let join = |path: &str| {
            std::path::Path::new("/project").join(path).to_string_lossy().into_owned()
        };
        let expected = inside(path, dir);
        assert_eq!(inside(&join(path), &join(dir)), expected);
        assert_eq!(inside(&join(path), dir), expected);
        assert_eq!(inside(path, &join(dir)), expected);
        assert!(inside(dir, dir));
    }
    assert!(inside("src/A.sol", "src"));
    assert!(!inside("lib/A.sol", "src"));
}

#[test]
fn a_linked_path_is_found_by_where_it_lies() {
    let real = Some("/disk/src/Counter.sol".to_string());
    let dir = Some("/disk/src".to_string());
    assert!(is_path_in_dir("link/Counter.sol", "src", "/project", &real, &dir));
    assert!(!is_path_in_dir("link/Counter.sol", "src", "/project", &None, &dir));
    assert!(!is_path_in_dir("link/Counter.sol", "src", "/project", &real, &None));
    let elsewhere = Some("/disk/lib".to_string());
    assert!(!is_path_in_dir("link/Counter.sol", "src", "/project", &real, &elsewhere));
}

#[test]
fn components_lie_in_a_directory() {
    let path = vec![normal("link"), normal("A.sol")];
    let dir = vec![normal("src")];
    let real = Some(vec![normal("disk"), normal("src"), normal("A.sol")]);
    let real_dir = Some(vec![normal("disk"), normal("src")]);
    assert!(components_in_dir(&path, &dir, &real, &real_dir));
    assert!(!components_in_dir(&path, &dir, &None, &None));
    assert!(components_in_dir(&path, &vec![normal("link")], &None, &None));
}

#[test]
fn a_path_set_holds_a_path_once() {
    let mut set = paths(&["a/b", "a//b", "c"]);
    assert_eq!(set.paths().len(), 2);
    assert!(set.contains("a/./b"));
    set.remove("a/b/");
    assert!(!set.contains("a/b"));
    assert_eq!(*set.paths(), vec!["c".to_string()]);
    set.remove("missing");
    assert_eq!(set.paths().len(), 1);
}

#[test]
fn path_sets_are_joined_and_subtracted() {
    let mut set = paths(&["a", "b"]);
    set.extend(&paths(&["b", "c"]));
    assert_eq!(set.paths().len(), 3);
    set.remove_all(&paths(&["a", "c", "d"]));
    assert_eq!(*set.paths(), vec!["b".to_string()]);
    assert!(contains_path(&vec!["x/y".to_string()], "x//y"));
    assert!(!contains_path(&vec![], "x"));
}

#[test]
fn a_remapping_matches_by_text() {
    let remapping = remapping(None, "src/", "lib/src/");
    assert!(remapping_matches_path(&remapping, "src/Counter.sol"));
    assert!(!remapping_matches_path(&remapping, "src"));
    assert!(!remapping_matches_path(&remapping, "/src/Counter.sol"));
}

#[test]
fn a_remapping_applies_in_its_context() {
    let everywhere = remapping(None, "foundry-pp/", "x/");
    assert!(remapping_applies(&everywhere, "foundry-pp/A.sol", "test/A.t.sol", "/root"));
    let in_tests = remapping(Some("test/"), "foundry-pp/", "x/");
    assert!(remapping_applies(&in_tests, "foundry-pp/A.sol", "test/A.t.sol", "/root"));
    assert!(remapping_applies(&in_tests, "foundry-pp/A.sol", "/root/test/A.t.sol", "/root"));
    assert!(!remapping_applies(&in_tests, "foundry-pp/A.sol", "script/A.s.sol", "/root"));
    assert!(!remapping_applies(&in_tests, "src/A.sol", "test/A.t.sol", "/root"));
    assert!(!remapping_applies(&in_tests, "foundry-pp/A.sol", "/other/test/A.t.sol", "/root"));
}

#[test]
fn an_import_is_redirected_by_prefixes() {
    let context = Some("te".to_string());
    assert!(redirects_import(&context, "src", "src/A.sol", "test/A.t.sol"));
    assert!(!redirects_import(&context, "src", "lib/A.sol", "test/A.t.sol"));
    assert!(!redirects_import(&context, "src", "src/A.sol", "script/A.s.sol"));
    assert!(redirects_import(&None, "", "src/A.sol", "script/A.s.sol"));
}

#[test]
fn a_rewrite_needs_the_source_unit() {
    let units = paths(&["src/Counter.sol"]);
    let rewritable = |path: &str, helper: bool| {
        can_rewrite(path, "test/A.t.sol", "/root", &units, &vec![], helper, 3)
    };
    assert!(rewritable("src/Counter.sol", false));
    assert!(rewritable("src/Counter.sol", true));
    assert!(rewritable("/root/src/Counter.sol", false));
    assert!(!rewritable("src/Other.sol", false));
    assert!(!rewritable("/other/src/Counter.sol", true));
}

#[test]
fn a_matching_remapping_rules_a_rewrite_out_in_any_context() {
    let units = paths(&["src/Counter.sol"]);
    let far = vec![remapping(Some("nowhere/"), "src/", "lib/")];
    assert!(!can_rewrite("src/Counter.sol", "test/A.t.sol", "/root", &units, &far, false, 3));
    assert!(!can_rewrite("/root/src/Counter.sol", "test/A.t.sol", "/root", &units, &far, false, 3));
    let other = vec![remapping(None, "lib/", "dependencies/")];
    assert!(can_rewrite("src/Counter.sol", "test/A.t.sol", "/root", &units, &other, true, 3));
}

#[test]
fn a_redirected_helper_rules_a_rewrite_out() {
    let units = paths(&["src/Counter.sol"]);
    let redirected = vec![remapping(Some("test/"), "foundry-pp/DeployHelper3", "x/")];
    assert!(can_rewrite("src/Counter.sol", "test/A.t.sol", "/root", &units, &redirected, false, 3));
    assert!(!can_rewrite("src/Counter.sol", "test/A.t.sol", "/root", &units, &redirected, true, 3));
    assert!(can_rewrite("src/Counter.sol", "script/A.s.sol", "/root", &units, &redirected, true, 3));
    assert!(can_rewrite("src/Counter.sol", "test/A.t.sol", "/root", &units, &redirected, true, 4));
}

#[test]
fn imports_are_kept_on_written_paths() {
    let kept = |compiled: bool, remappings: Vec<Remapping>, helper: bool| {
        keeps_imports(
            compiled,
            "src/A.sol",
            "test/A.t.sol",
            "foundry-pp/DeployHelper0.sol",
            "foundry-pp/DeployHelper0.sol",
            &remappings,
            helper,
        )
    };
    assert!(kept(true, vec![], true));
    assert!(!kept(false, vec![], false));
    assert!(!kept(true, vec![remapping(Some("x"), "src", "y")], false));
    assert!(kept(true, vec![remapping(None, "foundry-pp", "y")], false));
    assert!(!kept(true, vec![remapping(None, "foundry-pp", "y")], true));
    assert!(kept(true, vec![remapping(Some("script"), "foundry-pp", "y")], true));
}

#[test]
fn a_helper_only_narrows() {
    let units = paths(&["src/Counter.sol"]);
    for name in ["src/", "lib/", "foundry-pp/", ""] {
        let remappings = vec![remapping(None, name, "x/")];
        let with_helper =
            can_rewrite("src/Counter.sol", "test/A.t.sol", "/root", &units, &remappings, true, 1);
        let without =
            can_rewrite("src/Counter.sol", "test/A.t.sol", "/root", &units, &remappings, false, 1);
        assert!(!with_helper || without);
    }
}

#[test]
fn updates_are_kept_in_order_and_once() {
    let mut set = UpdateSet::new();
    set.insert(update(5, 6, "b"));
    set.insert(update(5, 5, "z"));
    set.insert(update(1, 9, ""));
    set.insert(update(5, 6, "a"));
    set.insert(update(5, 6, "b"));
    assert_eq!(
        *set.updates(),
        vec![update(1, 9, ""), update(5, 5, "z"), update(5, 6, "a"), update(5, 6, "b")]
    );
}

#[test]
fn updates_of_a_file_are_joined() {
    let mut updates = Updates::new();
    let mut first = UpdateSet::new();
    first.insert(update(1, 2, "x"));
    let mut second = UpdateSet::new();
    second.insert(update(0, 0, "y"));
    updates.extend("test/A.t.sol", first);
    updates.extend("test//A.t.sol", second);
    updates.extend("test/B.t.sol", UpdateSet::new());
    let files = updates.files();
    assert_eq!(files.len(), 2);
    assert_eq!(files[0].path, "test/A.t.sol");
    assert_eq!(*files[0].updates.updates(), vec![update(0, 0, "y"), update(1, 2, "x")]);
    assert_eq!(files[1].path, "test/B.t.sol");
    assert!(files[1].updates.updates().is_empty());
}

#[test]
fn text_is_cut_at_characters() {
    assert_eq!(slice("new Counter()", 4, 11), "Counter");
    assert_eq!(slice("a\u{e9}b", 1, 3), "\u{e9}");
    assert!(can_slice("a\u{e9}b", 1, 3));
    assert!(!can_slice("a\u{e9}b", 1, 2));
    assert!(!can_slice("abc", 2, 1));
    assert!(!can_slice("abc", 0, 4));
    assert!(can_slice("abc", 3, 3));
}

#[test]
fn text_is_compared_by_characters() {
    assert_eq!(chars_of("a\u{e9}"), vec!['a', '\u{e9}']);
    assert!(starts_with("abc", "ab"));
    assert!(starts_with("abc", ""));
    assert!(!starts_with("ab", "abc"));
    assert!(comes_before("a", "b"));
    assert!(comes_before("a", "aa"));
    assert!(!comes_before("a", "a"));
    assert!(!comes_before("b", "aa"));
}

#[test]
fn numbers_are_written_in_decimal() {
    assert_eq!(decimal(0), "0");
    assert_eq!(decimal(10), "10");
    assert_eq!(decimal(usize::MAX), usize::MAX.to_string());
}
