//! What a remapping and the spelling of a path change, and what they do not.
use crate::path;
use crate::path::{ComponentView, PathId};
use crate::project::ProjectPaths;
use crate::remapping;
use crate::remapping::Remapping;
use crate::text;
use vstd::prelude::*;

verus! {

/// Whether `generated` is what is left of `path` below `root`, or `path` where it does not lie there.
pub open spec fn is_generated_path(path: Seq<char>, root: Seq<char>, generated: Seq<char>) -> bool {
    ||| path::path_strip_prefix(path, root) == Some(generated)
    ||| path::path_strip_prefix(path, root) is None && generated == path
}

/// Whether a source unit written `unit` lies in the context of `remapping`.
pub open spec fn in_context(remapping: Remapping, unit: Seq<char>) -> bool {
    match remapping.context {
        Some(context) => path::path_to_slash(context@).is_prefix_of(unit),
        None => true,
    }
}

/// A remapping whose name begins the generated path rules a rewrite out, wherever it stands among
/// the remappings, and whatever its context is.
pub proof fn law_matching_remapping_rules_out(
    path: Seq<char>,
    source_path: Seq<char>,
    root: Seq<char>,
    source_units: Set<PathId>,
    remappings: Seq<Remapping>,
    needs_constructor_helper: bool,
    id: nat,
    generated: Seq<char>,
    k: int,
)
    requires
        is_generated_path(path, root, generated),
        0 <= k < remappings.len(),
        remappings[k].name@.is_prefix_of(path::path_to_slash(generated)),
    ensures
        !remapping::rewrite_preserves_identity(
            path,
            source_path,
            root,
            source_units,
            remappings,
            needs_constructor_helper,
            id,
        ),
{
    assert(remapping::matches_path(remappings[k], generated));
}

/// A remapping that redirects the import of the constructor helper in the test rules a rewrite with
/// a helper out, wherever it stands among the remappings.
pub proof fn law_redirected_helper_rules_out(
    path: Seq<char>,
    source_path: Seq<char>,
    root: Seq<char>,
    source_units: Set<PathId>,
    remappings: Seq<Remapping>,
    id: nat,
    unit: Seq<char>,
    k: int,
)
    requires
        is_generated_path(source_path, root, unit),
        0 <= k < remappings.len(),
        remappings[k].name@.is_prefix_of(
            path::path_to_slash("foundry-pp/DeployHelper"@ + text::decimal_of(id) + ".sol"@),
        ),
        in_context(remappings[k], path::path_to_slash(unit)),
    ensures
        !remapping::rewrite_preserves_identity(
            path,
            source_path,
            root,
            source_units,
            remappings,
            true,
            id,
        ),
{
    assert(remapping::applies_to(
        remappings[k],
        remapping::helper_path(id),
        source_path,
        root,
    ));
}

/// Only a source that is compiled under the generated path can be referred to.
pub proof fn law_rewrite_needs_the_source_unit(
    path: Seq<char>,
    source_path: Seq<char>,
    root: Seq<char>,
    source_units: Set<PathId>,
    remappings: Seq<Remapping>,
    needs_constructor_helper: bool,
    id: nat,
    generated: Seq<char>,
)
    requires
        is_generated_path(path, root, generated),
        !source_units.contains(path::path_components(generated)),
    ensures
        !remapping::rewrite_preserves_identity(
            path,
            source_path,
            root,
            source_units,
            remappings,
            needs_constructor_helper,
            id,
        ),
{
}

/// Nothing else rules a rewrite out: a source that is compiled under the generated path can be
/// referred to if no name of a remapping begins that path and, where a helper is needed, none that is
/// in the context of the test begins the path of the helper.
pub proof fn law_unmatched_rewrite_is_allowed(
    path: Seq<char>,
    source_path: Seq<char>,
    root: Seq<char>,
    source_units: Set<PathId>,
    remappings: Seq<Remapping>,
    needs_constructor_helper: bool,
    id: nat,
    generated: Seq<char>,
    unit: Seq<char>,
)
    requires
        is_generated_path(path, root, generated),
        is_generated_path(source_path, root, unit),
        source_units.contains(path::path_components(generated)),
        forall|k: int|
            0 <= k < remappings.len() ==> !(#[trigger] remappings[k]).name@.is_prefix_of(
                path::path_to_slash(generated),
            ),
        needs_constructor_helper ==> forall|k: int|
            0 <= k < remappings.len() && in_context(
                #[trigger] remappings[k],
                path::path_to_slash(unit),
            ) ==> !remappings[k].name@.is_prefix_of(
                path::path_to_slash("foundry-pp/DeployHelper"@ + text::decimal_of(id) + ".sol"@),
            ),
    ensures
        remapping::rewrite_preserves_identity(
            path,
            source_path,
            root,
            source_units,
            remappings,
            needs_constructor_helper,
            id,
        ),
{
    assert(remapping::helper_path(id) == "foundry-pp/DeployHelper"@ + text::decimal_of(id) + ".sol"@);
    assert forall|k: int| 0 <= k < remappings.len() implies !remapping::matches_path(
        #[trigger] remappings[k],
        generated,
    ) && !remapping::applies_to(remappings[k], generated, remapping::helper_path(id), root) by {}
    if needs_constructor_helper {
        assert forall|k: int| 0 <= k < remappings.len() implies !remapping::applies_to(
            #[trigger] remappings[k],
            remapping::helper_path(id),
            source_path,
            root,
        ) by {
            assert(in_context(remappings[k], path::path_to_slash(unit))
                ==> !remappings[k].name@.is_prefix_of(
                path::path_to_slash(remapping::helper_path(id)),
            ));
        }
    }
}

/// Another remapping, wherever it is put, makes no rewrite possible that was not.
pub proof fn law_another_remapping_never_enables(
    path: Seq<char>,
    source_path: Seq<char>,
    root: Seq<char>,
    source_units: Set<PathId>,
    remappings: Seq<Remapping>,
    needs_constructor_helper: bool,
    id: nat,
    at: int,
    added: Remapping,
)
    requires
        0 <= at <= remappings.len(),
        remapping::rewrite_preserves_identity(
            path,
            source_path,
            root,
            source_units,
            remappings.insert(at, added),
            needs_constructor_helper,
            id,
        ),
    ensures
        remapping::rewrite_preserves_identity(
            path,
            source_path,
            root,
            source_units,
            remappings,
            needs_constructor_helper,
            id,
        ),
{
    let more = remappings.insert(at, added);
    let generated = remapping::relative_to(path, root);
    assert forall|k: int| 0 <= k < remappings.len() implies !remapping::matches_path(
        #[trigger] remappings[k],
        generated,
    ) && (needs_constructor_helper ==> !remapping::applies_to(
        remappings[k],
        remapping::helper_path(id),
        source_path,
        root,
    ) && !remapping::applies_to(remappings[k], generated, remapping::helper_path(id), root)) by {
        let j = if k < at {
            k
        } else {
            k + 1
        };
        assert(more[j] == remappings[k]);
    }
}

/// The order of the remappings does not matter, nor how often one occurs: what is possible with some
/// remappings is possible with any list of them.
pub proof fn law_order_of_remappings_does_not_matter(
    path: Seq<char>,
    source_path: Seq<char>,
    root: Seq<char>,
    source_units: Set<PathId>,
    remappings: Seq<Remapping>,
    others: Seq<Remapping>,
    needs_constructor_helper: bool,
    id: nat,
)
    requires
        forall|k: int| 0 <= k < remappings.len() ==> others.contains(#[trigger] remappings[k]),
        remapping::rewrite_preserves_identity(
            path,
            source_path,
            root,
            source_units,
            others,
            needs_constructor_helper,
            id,
        ),
    ensures
        remapping::rewrite_preserves_identity(
            path,
            source_path,
            root,
            source_units,
            remappings,
            needs_constructor_helper,
            id,
        ),
{
    let generated = remapping::relative_to(path, root);
    assert forall|k: int| 0 <= k < remappings.len() implies !remapping::matches_path(
        #[trigger] remappings[k],
        generated,
    ) && (needs_constructor_helper ==> !remapping::applies_to(
        remappings[k],
        remapping::helper_path(id),
        source_path,
        root,
    ) && !remapping::applies_to(remappings[k], generated, remapping::helper_path(id), root)) by {
        let j = choose|j: int| 0 <= j < others.len() && others[j] == remappings[k];
        assert(others[j] == remappings[k]);
    }
}

/// A rewrite on written paths is ruled out where the path is not compiled, where the name of any
/// remapping begins it, and, with a helper, where a remapping in the context of the test begins the
/// helper. In every other case it is allowed.
pub proof fn law_imports_are_kept_unless_redirected(
    compiled: bool,
    generated: Seq<char>,
    unit: Seq<char>,
    helper: Seq<char>,
    helper_unit: Seq<char>,
    remappings: Seq<Remapping>,
    needs_constructor_helper: bool,
    k: int,
)
    ensures
        remapping::imports_kept(
            compiled,
            generated,
            unit,
            helper,
            helper_unit,
            remappings,
            needs_constructor_helper,
        ) ==> compiled,
        0 <= k < remappings.len() && remappings[k].name@.is_prefix_of(generated)
            ==> !remapping::imports_kept(
            compiled,
            generated,
            unit,
            helper,
            helper_unit,
            remappings,
            needs_constructor_helper,
        ),
        0 <= k < remappings.len() && needs_constructor_helper && remappings[k].name@.is_prefix_of(
            helper,
        ) && (remappings[k].context matches Some(context) ==> context@.is_prefix_of(unit))
            ==> !remapping::imports_kept(
            compiled,
            generated,
            unit,
            helper,
            helper_unit,
            remappings,
            needs_constructor_helper,
        ),
        ({
            &&& compiled
            &&& forall|i: int|
                0 <= i < remappings.len() ==> !(#[trigger] remappings[i]).name@.is_prefix_of(
                    generated,
                )
            &&& needs_constructor_helper ==> forall|i: int|
                0 <= i < remappings.len() ==> !((#[trigger] remappings[i]).name@.is_prefix_of(
                    helper,
                ) && (remappings[i].context matches Some(context) ==> context@.is_prefix_of(unit)))
        }) ==> remapping::imports_kept(
            compiled,
            generated,
            unit,
            helper,
            helper_unit,
            remappings,
            needs_constructor_helper,
        ),
{
    if 0 <= k < remappings.len() {
        assert(text::option_view(remappings[k].context) == match remappings[k].context {
            Some(context) => Some(context@),
            None => None::<Seq<char>>,
        });
        assert(remapping::redirects(
            text::option_view(remappings[k].context),
            remappings[k].name@,
            helper,
            unit,
        ) == (remappings[k].name@.is_prefix_of(helper) && (remappings[k].context matches Some(context)
            ==> context@.is_prefix_of(unit))));
    }
}

/// A remapping matches a path that begins with its name, and no other.
pub proof fn law_remapping_matches_by_name(remapping: Remapping, path: Seq<char>, rest: Seq<char>)
    ensures
        path::path_to_slash(path) == remapping.name@ + rest ==> remapping::matches_path(
            remapping,
            path,
        ),
        remapping::matches_path(remapping, path) ==> path::path_to_slash(path).len()
            >= remapping.name@.len() && path::path_to_slash(path).take(remapping.name@.len() as int)
            == remapping.name@,
{
    let written = path::path_to_slash(path);
    if written == remapping.name@ + rest {
        assert(written.subrange(0, remapping.name@.len() as int) =~= remapping.name@);
    }
}

/// A remapping applies to an import that begins with its name, in a source unit that begins with its
/// context, if it has one, and to no other.
pub proof fn law_remapping_applies_in_its_context(
    remapping: Remapping,
    import_path: Seq<char>,
    source_unit: Seq<char>,
    root: Seq<char>,
    unit: Seq<char>,
)
    requires
        is_generated_path(source_unit, root, unit),
    ensures
        remapping::applies_to(remapping, import_path, source_unit, root) <==> (
        remapping.name@.is_prefix_of(path::path_to_slash(import_path)) && in_context(
            remapping,
            path::path_to_slash(unit),
        )),
{
}

/// An import is redirected where it continues the name and its source unit continues the context; a
/// remapping without a context redirects in every source unit.
pub proof fn law_redirection_goes_by_prefixes(
    context: Seq<char>,
    name: Seq<char>,
    import_rest: Seq<char>,
    unit_rest: Seq<char>,
    unit: Seq<char>,
    import_path: Seq<char>,
)
    ensures
        remapping::redirects(Some(context), name, name + import_rest, context + unit_rest),
        remapping::redirects(None, name, name + import_rest, unit),
        !context.is_prefix_of(unit) ==> !remapping::redirects(
            Some(context),
            name,
            import_path,
            unit,
        ),
        !name.is_prefix_of(import_path) ==> !remapping::redirects(
            Some(context),
            name,
            import_path,
            unit,
        ) && !remapping::redirects(None, name, import_path, unit),
{
    assert((name + import_rest).subrange(0, name.len() as int) =~= name);
    assert((context + unit_rest).subrange(0, context.len() as int) =~= context);
}

/// Whether `parts` hold neither `.` nor `..`.
pub open spec fn without_dots(parts: Seq<ComponentView>) -> bool {
    forall|i: int| 0 <= i < parts.len() ==> !(#[trigger] parts[i] is CurDir) && !(parts[i] is ParentDir)
}

/// A normalized path holds neither `.` nor `..`.
pub proof fn law_normalized_paths_have_no_dots(parts: Seq<ComponentView>)
    ensures
        without_dots(path::normalized(parts)),
    decreases parts.len(),
{
    if parts.len() > 0 {
        law_normalized_paths_have_no_dots(parts.drop_last());
    }
}

/// What holds no dots is not changed by normalization, at the end of any path.
pub proof fn law_names_are_kept(parts: Seq<ComponentView>, names: Seq<ComponentView>)
    requires
        without_dots(names),
    ensures
        path::normalized(parts + names) == path::normalized(parts) + names,
    decreases names.len(),
{
    let whole = parts + names;
    if names.len() == 0 {
        assert(whole =~= parts);
        assert(path::normalized(parts) + names =~= path::normalized(parts));
    } else {
        let front = names.drop_last();
        assert forall|i: int| 0 <= i < front.len() implies !(#[trigger] front[i] is CurDir) && !(
        front[i] is ParentDir) by {
            assert(front[i] == names[i]);
        }
        law_names_are_kept(parts, front);
        assert(whole.drop_last() =~= parts + front);
        assert(whole.last() == names[names.len() - 1]);
        assert(path::normalized(parts) + names =~= (path::normalized(parts) + front).push(
            names.last(),
        ));
    }
}

/// What comes behind two paths that normalize to the same is normalized in the same way.
proof fn lemma_same_front(a: Seq<ComponentView>, b: Seq<ComponentView>, rest: Seq<ComponentView>)
    requires
        path::normalized(a) == path::normalized(b),
    ensures
        path::normalized(a + rest) == path::normalized(b + rest),
    decreases rest.len(),
{
    if rest.len() == 0 {
        assert(a + rest =~= a);
        assert(b + rest =~= b);
    } else {
        lemma_same_front(a, b, rest.drop_last());
        assert((a + rest).drop_last() =~= a + rest.drop_last());
        assert((b + rest).drop_last() =~= b + rest.drop_last());
    }
}

/// A `.` counts for nothing, wherever it stands. A `..` takes back the name before it. Behind the
/// start of a path, a root or a prefix, there is nothing to take back.
pub proof fn law_dots_are_resolved(
    parts: Seq<ComponentView>,
    name: Seq<char>,
    rest: Seq<ComponentView>,
    start: ComponentView,
)
    requires
        start is RootDir || start is Prefix,
    ensures
        path::normalized(parts.push(ComponentView::CurDir) + rest) == path::normalized(parts + rest),
        path::normalized(
            parts.push(ComponentView::Normal(name)).push(ComponentView::ParentDir) + rest,
        ) == path::normalized(parts + rest),
        path::normalized(parts.push(start).push(ComponentView::ParentDir) + rest)
            == path::normalized(parts.push(start) + rest),
        path::normalized(seq![ComponentView::ParentDir] + rest) == path::normalized(rest),
{
    let dot = parts.push(ComponentView::CurDir);
    assert(dot.drop_last() =~= parts);
    lemma_same_front(dot, parts, rest);
    let named = parts.push(ComponentView::Normal(name));
    assert(named.drop_last() =~= parts);
    assert(path::normalized(named) == path::normalized(parts).push(ComponentView::Normal(name)));
    let back = named.push(ComponentView::ParentDir);
    assert(back.drop_last() =~= named);
    assert(path::normalized(parts).push(ComponentView::Normal(name)).drop_last()
        =~= path::normalized(parts));
    lemma_same_front(back, parts, rest);
    let started = parts.push(start);
    assert(started.drop_last() =~= parts);
    let stuck = started.push(ComponentView::ParentDir);
    assert(stuck.drop_last() =~= started);
    lemma_same_front(stuck, started, rest);
    let up = seq![ComponentView::ParentDir];
    assert(up.drop_last() =~= Seq::empty());
    assert(path::normalized(up.drop_last()) =~= Seq::empty());
    lemma_same_front(up, Seq::empty(), rest);
    assert(Seq::<ComponentView>::empty() + rest =~= rest);
}

/// A path lies in a directory that it continues, by its normalized components below the root or by
/// its components on disk, and in no other.
pub proof fn law_path_lies_in_what_it_continues(
    path: Seq<char>,
    dir: Seq<char>,
    root: Seq<char>,
    canonical_path: Option<Seq<char>>,
    canonical_dir: Option<Seq<char>>,
    rest: PathId,
)
    ensures
        path::normalized(path::path_components(path::path_join(root, path))) == path::normalized(
            path::path_components(path::path_join(root, dir)),
        ) + rest ==> path::path_in_dir(path, dir, root, canonical_path, canonical_dir),
        canonical_path is Some && canonical_dir is Some && path::path_components(canonical_path->0)
            == path::path_components(canonical_dir->0) + rest ==> path::path_in_dir(
            path,
            dir,
            root,
            canonical_path,
            canonical_dir,
        ),
        path::path_in_dir(path, dir, root, canonical_path, canonical_dir) ==> exists|tail: PathId|
            {
                ||| path::normalized(path::path_components(path::path_join(root, path)))
                    == #[trigger] (path::normalized(
                    path::path_components(path::path_join(root, dir)),
                ) + tail)
                ||| canonical_path is Some && canonical_dir is Some && path::path_components(
                    canonical_path->0,
                ) == path::path_components(canonical_dir->0) + tail
            },
{
    let a = path::normalized(path::path_components(path::path_join(root, path)));
    let b = path::normalized(path::path_components(path::path_join(root, dir)));
    assert((b + rest).subrange(0, b.len() as int) =~= b);
    if canonical_path is Some && canonical_dir is Some {
        let x = path::path_components(canonical_path->0);
        let y = path::path_components(canonical_dir->0);
        assert((y + rest).subrange(0, y.len() as int) =~= y);
        if y.is_prefix_of(x) {
            let tail = x.subrange(y.len() as int, x.len() as int);
            assert(x =~= y + tail);
            assert((b + tail).len() == b.len() + tail.len());
        }
    }
    if b.is_prefix_of(a) {
        let tail = a.subrange(b.len() as int, a.len() as int);
        assert(a =~= b + tail);
    }
}

/// What lies in the directory of the tests or of the scripts, as configured or relative to the root,
/// is no source, and everything else is one.
pub proof fn law_tests_and_scripts_are_no_sources(
    project: ProjectPaths,
    path: Seq<char>,
    dir: Seq<char>,
    rest: PathId,
)
    requires
        dir == project.tests@ || dir == project.scripts@,
    ensures
        path::path_components(path) == path::path_components(dir) + rest ==> !project.is_source(path),
        path::path_strip_prefix(dir, project.root@) is Some && path::path_components(path)
            == path::path_components(path::path_strip_prefix(dir, project.root@)->0) + rest
            ==> !project.is_source(path),
        (forall|d: Seq<char>|
            d == project.tests@ || d == project.scripts@ ==> !(#[trigger] path::path_components(
                d,
            )).is_prefix_of(path::path_components(path)) && (path::path_strip_prefix(
                d,
                project.root@,
            ) matches Some(below) ==> !path::path_components(below).is_prefix_of(
                path::path_components(path),
            ))) ==> project.is_source(path),
{
    let parts = path::path_components(dir);
    assert((parts + rest).subrange(0, parts.len() as int) =~= parts);
    if let Some(below) = path::path_strip_prefix(dir, project.root@) {
        let parts = path::path_components(below);
        assert((parts + rest).subrange(0, parts.len() as int) =~= parts);
    }
}

} // verus!
