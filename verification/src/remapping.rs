//! Import remappings, and whether a generated import keeps the identity of what it names.
use crate::path;
use crate::path::PathId;
use crate::path_set::PathSet;
use crate::text;
use vstd::prelude::*;
use vstd::string::*;

verus! {

/// A compiler remapping `context:name=path`: an import whose path begins with `name`, in a source
/// unit whose path begins with `context`, is read from below `path`.
pub struct Remapping {
    pub context: Option<String>,
    pub name: String,
    pub path: String,
}

/// `path` as it is written below `root`, or as it stands where it does not lie there.
pub open spec fn relative_to(path: Seq<char>, root: Seq<char>) -> Seq<char> {
    match path::path_strip_prefix(path, root) {
        Some(rest) => rest,
        None => path,
    }
}

/// Whether `path` begins with the prefix that `remapping` selects.
pub open spec fn matches_path(remapping: Remapping, path: Seq<char>) -> bool {
    remapping.name@.is_prefix_of(path::path_to_slash(path))
}

/// Whether an import of `import_path` in `source_unit`, both written with `/`, is redirected by a
/// remapping of `name` in `context`.
pub open spec fn redirects(
    context: Option<Seq<char>>,
    name: Seq<char>,
    import_path: Seq<char>,
    source_unit: Seq<char>,
) -> bool {
    &&& context matches Some(context) ==> context.is_prefix_of(source_unit)
    &&& name.is_prefix_of(import_path)
}

/// The context of `remapping`, written with `/`.
pub open spec fn slash_context(remapping: Remapping) -> Option<Seq<char>> {
    match remapping.context {
        Some(context) => Some(path::path_to_slash(context@)),
        None => None,
    }
}

/// Whether `remapping` redirects an import of `import_path` in `source_unit`.
pub open spec fn applies_to(
    remapping: Remapping,
    import_path: Seq<char>,
    source_unit: Seq<char>,
    root: Seq<char>,
) -> bool {
    redirects(
        slash_context(remapping),
        remapping.name@,
        path::path_to_slash(import_path),
        path::path_to_slash(relative_to(source_unit, root)),
    )
}

/// Where the constructor helper of contract `id` is generated.
pub open spec fn helper_path(id: nat) -> Seq<char> {
    "foundry-pp/DeployHelper"@ + text::decimal_of(id) + ".sol"@
}

/// Whether a reference in `source_path` to contract `id`, declared in `path`, may be generated:
/// the contract's source is compiled under its path below `root`, no remapping matches that path,
/// and, where a constructor helper is needed, no remapping redirects the import of the helper or
/// the import of the contract from the helper.
pub open spec fn rewrite_preserves_identity(
    path: Seq<char>,
    source_path: Seq<char>,
    root: Seq<char>,
    source_units: Set<PathId>,
    remappings: Seq<Remapping>,
    needs_constructor_helper: bool,
    id: nat,
) -> bool {
    let generated = relative_to(path, root);
    &&& source_units.contains(path::path_components(generated))
    &&& forall|i: int| 0 <= i < remappings.len() ==> !matches_path(#[trigger] remappings[i], generated)
    &&& needs_constructor_helper ==> forall|i: int|
        0 <= i < remappings.len() ==> {
            &&& !applies_to(#[trigger] remappings[i], helper_path(id), source_path, root)
            &&& !applies_to(remappings[i], generated, helper_path(id), root)
        }
}

fn relative_path(path: &str, root: &str) -> (relative: String)
    ensures
        relative@ == relative_to(path@, root@),
{
    match path::strip_prefix(path, root) {
        Some(rest) => rest,
        None => path.to_owned(),
    }
}

/// Returns whether `path` has the string prefix selected by `remapping`.
pub fn remapping_matches_path(remapping: &Remapping, path: &str) -> (matched: bool)
    ensures
        matched == matches_path(*remapping, path@),
{
    text::starts_with(&path::to_slash(path), &remapping.name)
}

/// Whether an import of `import_path` in `source_unit`, both written with `/`, is redirected by a
/// remapping of `name` in `context`.
pub fn redirects_import(
    context: &Option<String>,
    name: &str,
    import_path: &str,
    source_unit: &str,
) -> (redirected: bool)
    ensures
        redirected == redirects(
            text::option_view(*context),
            name@,
            import_path@,
            source_unit@,
        ),
{
    let in_context = match context {
        None => true,
        Some(context) => text::starts_with(source_unit, context),
    };
    in_context && text::starts_with(import_path, name)
}

/// Returns whether a generated import would be redirected by `remapping`.
pub fn remapping_applies(
    remapping: &Remapping,
    import_path: &str,
    source_unit: &str,
    root_dir: &str,
) -> (redirected: bool)
    ensures
        redirected == applies_to(*remapping, import_path@, source_unit@, root_dir@),
{
    let source_unit = path::to_slash(&relative_path(source_unit, root_dir));
    let context = match &remapping.context {
        Some(context) => Some(path::to_slash(context)),
        None => None,
    };
    redirects_import(&context, &remapping.name, &path::to_slash(import_path), &source_unit)
}

/// Whether a reference may be generated to what is imported as `generated`, all paths and contexts
/// being written with `/`: the path is `compiled` as a source unit, no remapping matches it, and,
/// where a constructor helper is needed, none redirects the import of `helper` in `source_unit` or
/// the import of the path in `helper_unit`, which is the helper as a source unit.
pub open spec fn imports_kept(
    compiled: bool,
    generated: Seq<char>,
    source_unit: Seq<char>,
    helper: Seq<char>,
    helper_unit: Seq<char>,
    remappings: Seq<Remapping>,
    needs_constructor_helper: bool,
) -> bool {
    &&& compiled
    &&& forall|i: int|
        0 <= i < remappings.len() ==> !(#[trigger] remappings[i]).name@.is_prefix_of(generated)
    &&& needs_constructor_helper ==> forall|i: int|
        0 <= i < remappings.len() ==> {
            let context = text::option_view((#[trigger] remappings[i]).context);
            &&& !redirects(context, remappings[i].name@, helper, source_unit)
            &&& !redirects(context, remappings[i].name@, generated, helper_unit)
        }
}

/// Whether a reference may be generated: see [`imports_kept`].
pub fn keeps_imports(
    compiled: bool,
    generated: &str,
    source_unit: &str,
    helper: &str,
    helper_unit: &str,
    remappings: &Vec<Remapping>,
    needs_constructor_helper: bool,
) -> (kept: bool)
    ensures
        kept == imports_kept(
            compiled,
            generated@,
            source_unit@,
            helper@,
            helper_unit@,
            remappings@,
            needs_constructor_helper,
        ),
{
    if !compiled {
        return false;
    }
    // Artifacts are looked up in the context of the running test, which can differ from the source
    // that holds an inherited helper, so a remapping that matches the generated path in any context
    // rules the rewrite out.
    let mut i: usize = 0;
    while i < remappings.len()
        invariant
            i <= remappings@.len(),
            forall|j: int|
                0 <= j < i ==> !(#[trigger] remappings@[j]).name@.is_prefix_of(generated@),
        decreases remappings@.len() - i,
    {
        if text::starts_with(generated, &remappings[i].name) {
            return false;
        }
        i = i + 1;
    }
    if !needs_constructor_helper {
        return true;
    }
    // The test imports the generated helper, which in turn imports the dependency.
    let mut k: usize = 0;
    while k < remappings.len()
        invariant
            k <= remappings@.len(),
            needs_constructor_helper,
            forall|j: int|
                0 <= j < k ==> {
                    let context = text::option_view((#[trigger] remappings@[j]).context);
                    &&& !redirects(context, remappings@[j].name@, helper@, source_unit@)
                    &&& !redirects(context, remappings@[j].name@, generated@, helper_unit@)
                },
        decreases remappings@.len() - k,
    {
        let remapping = &remappings[k];
        if redirects_import(&remapping.context, &remapping.name, helper, source_unit)
            || redirects_import(&remapping.context, &remapping.name, generated, helper_unit) {
            return false;
        }
        k = k + 1;
    }
    true
}

fn slash_contexts(remappings: &Vec<Remapping>) -> (slashed: Vec<Remapping>)
    ensures
        slashed@.len() == remappings@.len(),
        forall|i: int|
            0 <= i < remappings@.len() ==> {
                &&& text::option_view((#[trigger] slashed@[i]).context) == slash_context(
                    remappings@[i],
                )
                &&& slashed@[i].name@ == remappings@[i].name@
            },
{
    let mut slashed: Vec<Remapping> = Vec::new();
    let mut i: usize = 0;
    while i < remappings.len()
        invariant
            i <= remappings@.len(),
            slashed@.len() == i,
            forall|j: int|
                0 <= j < i ==> {
                    &&& text::option_view((#[trigger] slashed@[j]).context) == slash_context(
                        remappings@[j],
                    )
                    &&& slashed@[j].name@ == remappings@[j].name@
                },
        decreases remappings@.len() - i,
    {
        let remapping = &remappings[i];
        let context = match &remapping.context {
            Some(context) => Some(path::to_slash(context)),
            None => None,
        };
        slashed.push(
            Remapping { context, name: remapping.name.clone(), path: remapping.path.clone() },
        );
        i = i + 1;
    }
    slashed
}

fn helper_path_of(id: usize) -> (path: String)
    ensures
        path@ == helper_path(id as nat),
{
    let mut path = "foundry-pp/DeployHelper".to_owned();
    path.append(&text::decimal(id));
    path.append(".sol");
    path
}

/// Returns whether generated helper and artifact references preserve the source-unit identity.
pub fn can_rewrite(
    path: &str,
    source_path: &str,
    root_dir: &str,
    source_units: &PathSet,
    remappings: &Vec<Remapping>,
    needs_constructor_helper: bool,
    contract_id: usize,
) -> (rewritable: bool)
    ensures
        rewritable == rewrite_preserves_identity(
            path@,
            source_path@,
            root_dir@,
            source_units@,
            remappings@,
            needs_constructor_helper,
            contract_id as nat,
        ),
{
    let generated_path = relative_path(path, root_dir);
    let helper_path = helper_path_of(contract_id);
    let slashed = slash_contexts(remappings);
    let rewritable = keeps_imports(
        source_units.contains(&generated_path),
        &path::to_slash(&generated_path),
        &path::to_slash(&relative_path(source_path, root_dir)),
        &path::to_slash(&helper_path),
        &path::to_slash(&relative_path(&helper_path, root_dir)),
        &slashed,
        needs_constructor_helper,
    );
    proof {
        let generated = generated_path@;
        let helper = helper_path@;
        assert forall|i: int| 0 <= i < remappings@.len() implies {
            let (given, written) = (#[trigger] remappings@[i], slashed@[i]);
            let context = text::option_view(written.context);
            &&& matches_path(given, generated) == written.name@.is_prefix_of(
                path::path_to_slash(generated),
            )
            &&& applies_to(given, helper, source_path@, root_dir@) == redirects(
                context,
                written.name@,
                path::path_to_slash(helper),
                path::path_to_slash(relative_to(source_path@, root_dir@)),
            )
            &&& applies_to(given, generated, helper, root_dir@) == redirects(
                context,
                written.name@,
                path::path_to_slash(generated),
                path::path_to_slash(relative_to(helper, root_dir@)),
            )
        } by {}
        if rewritable {
            assert forall|i: int| 0 <= i < remappings@.len() implies !matches_path(
                #[trigger] remappings@[i],
                generated,
            ) by {
                assert(!slashed@[i].name@.is_prefix_of(path::path_to_slash(generated)));
            }
            if needs_constructor_helper {
                assert forall|i: int| 0 <= i < remappings@.len() implies !applies_to(
                    #[trigger] remappings@[i],
                    helper,
                    source_path@,
                    root_dir@,
                ) && !applies_to(remappings@[i], generated, helper, root_dir@) by {
                    assert(slashed@[i].name@ == remappings@[i].name@);
                }
            }
        }
    }
    rewritable
}

} // verus!
