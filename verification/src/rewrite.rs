//! Write mode: pointing every dependency of a lockfile that was fetched from
//! a registry at the given registry's tarball and integrity.

use crate::lock::{
    dependencies_view, distinct_names, names_of, node_at, DependenciesView, Dependency,
    DependencyView, Lockfile, LockfileView, Node, SUPPORTED_VERSION,
};
use crate::npm::{manifest_of, ManifestCache, RegistryView};
use vstd::prelude::*;

verus! {

/// A dependency that was left as it was because the registry has no manifest
/// for its version: the package name and the version.
#[derive(Clone, Debug, PartialEq, Eq)]
pub struct NotFound {
    pub package: String,
    pub version: String,
}

/// A dependency that was left as it was, as plain values.
pub ghost struct NotFoundView {
    pub package: Seq<char>,
    pub version: Seq<char>,
}

impl View for NotFound {
    type V = NotFoundView;

    open spec fn view(&self) -> NotFoundView {
        NotFoundView { package: self.package@, version: self.version@ }
    }
}

/// A list of dependencies that were left as they were, as plain values.
pub open spec fn not_found_view(skipped: Seq<NotFound>) -> Seq<NotFoundView> {
    Seq::new(skipped.len(), |i: int| skipped[i]@)
}

/// What nests below a dependency after rewriting.
pub open spec fn rewritten_children(
    registry: RegistryView,
    children: Option<DependenciesView>,
) -> Option<DependenciesView>
    decreases children,
{
    match children {
        Some(children) => Some(rewritten_all(registry, children)),
        None => None,
    }
}

/// The dependency `package` after rewriting against the registry.
///
/// One that was not fetched from a registry keeps its own fields; what nests
/// below it is rewritten. One that was fetched from a registry, and of whose
/// version the registry has a manifest, takes the manifest's tarball URL and
/// integrity; what nests below it is rewritten. One that was fetched from a
/// registry, and of whose version the registry has no manifest, stays as it
/// is, with all that nests below it.
pub open spec fn rewritten(
    registry: RegistryView,
    package: Seq<char>,
    dependency: DependencyView,
) -> DependencyView
    decreases dependency,
{
    match dependency.resolved {
        Some(_) => match manifest_of(registry, package, dependency.version) {
            Some(manifest) => DependencyView {
                resolved: Some(manifest.tarball),
                integrity: manifest.integrity,
                dependencies: rewritten_children(registry, dependency.dependencies),
                ..dependency
            },
            None => dependency,
        },
        None => DependencyView {
            dependencies: rewritten_children(registry, dependency.dependencies),
            ..dependency
        },
    }
}

/// Named dependencies after rewriting: each under its name, at its place,
/// rewritten by itself.
pub open spec fn rewritten_all(
    registry: RegistryView,
    dependencies: DependenciesView,
) -> DependenciesView
    decreases dependencies,
{
    Seq::new(
        dependencies.len(),
        |i: int|
            if 0 <= i < dependencies.len() {
                (dependencies[i].0, rewritten(registry, dependencies[i].0, dependencies[i].1))
            } else {
                arbitrary()
            },
    )
}

/// The dependencies that rewriting `package` leaves as they are for want of a
/// manifest, in the order in which they are met.
pub open spec fn skipped_of(
    registry: RegistryView,
    package: Seq<char>,
    dependency: DependencyView,
) -> Seq<NotFoundView>
    decreases dependency,
{
    let below = match dependency.dependencies {
        Some(children) => skipped_in(registry, children),
        None => Seq::<NotFoundView>::empty(),
    };
    match dependency.resolved {
        Some(_) => match manifest_of(registry, package, dependency.version) {
            Some(_) => below,
            None => seq![NotFoundView { package, version: dependency.version }],
        },
        None => below,
    }
}

/// The dependencies that rewriting a list of named dependencies leaves as
/// they are for want of a manifest, in the order in which they are met.
pub open spec fn skipped_in(registry: RegistryView, dependencies: DependenciesView) -> Seq<
    NotFoundView,
>
    decreases dependencies,
{
    if dependencies.len() == 0 {
        Seq::<NotFoundView>::empty()
    } else {
        skipped_in(registry, dependencies.drop_last()) + skipped_of(
            registry,
            dependencies.last().0,
            dependencies.last().1,
        )
    }
}

/// Rewrites the dependency `package` against the registry metadata in
/// `packages_info`. Each dependency that is left as it was for want of a
/// manifest is added to `skipped`.
pub fn rewrite_dependency(
    packages_info: &ManifestCache,
    package: &str,
    dependency: Dependency,
    skipped: &mut Vec<NotFound>,
) -> (out: Dependency)
    ensures
        out@ == rewritten(packages_info@, package@, dependency@),
        not_found_view(final(skipped)@) == not_found_view(old(skipped)@) + skipped_of(
            packages_info@,
            package@,
            dependency@,
        ),
    decreases dependency,
{
    let ghost before = not_found_view(skipped@);
    let mut dependency = dependency;
    if dependency.resolved.is_some() {
        match packages_info.manifest(package, dependency.version.as_str()) {
            Some(manifest) => {
                dependency.resolved = Some(manifest.dist.tarball.clone());
                dependency.integrity = manifest.dist.integrity.clone();
            },
            None => {
                skipped.push(
                    NotFound { package: package.to_owned(), version: dependency.version.clone() },
                );
                assert(not_found_view(skipped@) =~= before + seq![
                    NotFoundView { package: package@, version: dependency.version@ },
                ]);
                return dependency;
            },
        }
    }
    let Dependency { version, resolved, integrity, dependencies, passthrough } = dependency;
    let dependencies = match dependencies {
        Some(children) => Some(rewrite_dependencies(packages_info, children, skipped)),
        None => None,
    };
    Dependency { version, resolved, integrity, dependencies, passthrough }
}

/// Rewrites each of the named dependencies against the registry metadata in
/// `packages_info`, in order.
pub fn rewrite_dependencies(
    packages_info: &ManifestCache,
    dependencies: Vec<(String, Dependency)>,
    skipped: &mut Vec<NotFound>,
) -> (out: Vec<(String, Dependency)>)
    ensures
        dependencies_view(out@) == rewritten_all(packages_info@, dependencies_view(dependencies@)),
        not_found_view(final(skipped)@) == not_found_view(old(skipped)@) + skipped_in(
            packages_info@,
            dependencies_view(dependencies@),
        ),
    decreases dependencies,
{
    let ghost before = not_found_view(skipped@);
    let ghost given = dependencies_view(dependencies@);
    let ghost items = dependencies@;
    let mut out: Vec<(String, Dependency)> = Vec::new();
    for entry in iter: dependencies
        invariant
            given == dependencies_view(items),
            iter.seq() == items,
            out@.len() == iter.index(),
            forall|j: int|
                0 <= j < iter.index() ==> #[trigger] out@[j].0@ == given[j].0 && out@[j].1@
                    == rewritten(packages_info@, given[j].0, given[j].1),
            not_found_view(skipped@) == before + skipped_in(
                packages_info@,
                given.take(iter.index()),
            ),
    {
        proof {
            let upto = given.take(iter.index() + 1);
            assert(upto.drop_last() =~= given.take(iter.index()));
            assert(upto.last() == given[iter.index()]);
            assert(decreases_to!(dependencies => items[iter.index()]));
        }
        let (name, child) = entry;
        let rewritten_child = rewrite_dependency(packages_info, name.as_str(), child, skipped);
        out.push((name, rewritten_child));
    }
    assert(given.take(given.len() as int) =~= given);
    assert(dependencies_view(out@) =~= rewritten_all(packages_info@, given));
    out
}

/// Rewrites a lockfile against the registry metadata in `packages_info`. A
/// lockfile of another schema version than the supported one is handed back
/// as it is. The second part of the result lists the dependencies that were
/// left as they were for want of a manifest.
pub fn update_lock(lock: Lockfile, packages_info: &ManifestCache) -> (out: (Lockfile, Vec<NotFound>))
    ensures
        lock.lockfile_version != SUPPORTED_VERSION ==> out.0 == lock && out.1@.len() == 0,
        lock.lockfile_version == SUPPORTED_VERSION ==> out.0@ == (LockfileView {
            dependencies: rewritten_all(packages_info@, lock@.dependencies),
            ..lock@
        }) && not_found_view(out.1@) == skipped_in(packages_info@, lock@.dependencies),
{
    let mut skipped: Vec<NotFound> = Vec::new();
    if lock.lockfile_version != SUPPORTED_VERSION {
        return (lock, skipped);
    }
    assert(not_found_view(skipped@) =~= Seq::empty());
    let Lockfile { lockfile_version, passthrough, dependencies } = lock;
    let dependencies = rewrite_dependencies(packages_info, dependencies, &mut skipped);
    (Lockfile { lockfile_version, passthrough, dependencies }, skipped)
}

/// Whether rewriting leaves the dependency `package` as it is, with all that
/// nests below it: it was fetched from a registry, and the registry has no
/// manifest of its version.
pub open spec fn left_as_is(
    registry: RegistryView,
    package: Seq<char>,
    dependency: DependencyView,
) -> bool {
    dependency.resolved is Some && manifest_of(registry, package, dependency.version) is None
}

/// Whether rewriting goes down to the dependency at `places`: none of the
/// dependencies passed on the way down to it is left as it is.
pub open spec fn reaches(registry: RegistryView, dependencies: DependenciesView, places: Seq<int>) -> bool
    decreases places.len(),
{
    if places.len() == 0 || !(0 <= places[0] < dependencies.len()) {
        false
    } else if places.len() == 1 {
        true
    } else {
        let (package, dependency) = dependencies[places[0]];
        match dependency.dependencies {
            Some(children) => !left_as_is(registry, package, dependency) && reaches(
                registry,
                children,
                places.drop_first(),
            ),
            None => false,
        }
    }
}

/// Rewriting keeps the shape of the tree: where a dependency stood, a
/// dependency of the same name stands, and nowhere else.
pub proof fn lemma_rewrite_keeps_names(
    registry: RegistryView,
    dependencies: DependenciesView,
    places: Seq<int>,
)
    ensures
        match node_at(dependencies, places) {
            Some(before) => match node_at(rewritten_all(registry, dependencies), places) {
                Some(after) => after.package == before.package,
                None => false,
            },
            None => node_at(rewritten_all(registry, dependencies), places) is None,
        },
    decreases places.len(),
{
    if places.len() >= 2 && 0 <= places[0] < dependencies.len() {
        let (package, dependency) = dependencies[places[0]];
        match dependency.dependencies {
            Some(children) => {
                if !left_as_is(registry, package, dependency) {
                    lemma_rewrite_keeps_names(registry, children, places.drop_first());
                }
            },
            None => {},
        }
    }
}

/// A dependency that was not fetched from a registry keeps its own fields,
/// wherever in the tree it stands: its version, its integrity, and the
/// fields that are carried through; and it stays without a URL.
pub proof fn lemma_unresolved_keeps_own_fields(
    registry: RegistryView,
    dependencies: DependenciesView,
    places: Seq<int>,
)
    requires
        node_at(dependencies, places) is Some,
        node_at(dependencies, places)->0.dependency.resolved is None,
    ensures
        node_at(rewritten_all(registry, dependencies), places) is Some,
        ({
            let before = node_at(dependencies, places)->0;
            let after = node_at(rewritten_all(registry, dependencies), places)->0;
            &&& after.package == before.package
            &&& after.dependency.version == before.dependency.version
            &&& after.dependency.resolved is None
            &&& after.dependency.integrity == before.dependency.integrity
            &&& after.dependency.passthrough == before.dependency.passthrough
        }),
    decreases places.len(),
{
    if places.len() >= 2 {
        let (package, dependency) = dependencies[places[0]];
        let children = dependency.dependencies->0;
        if !left_as_is(registry, package, dependency) {
            lemma_unresolved_keeps_own_fields(registry, children, places.drop_first());
        }
    }
}

/// Whether neither the dependency nor anything nested below it was fetched
/// from a registry.
pub open spec fn unresolved_throughout(dependency: DependencyView) -> bool
    decreases dependency,
{
    &&& dependency.resolved is None
    &&& match dependency.dependencies {
        Some(children) => forall|i: int|
            0 <= i < children.len() ==> unresolved_throughout(#[trigger] children[i].1),
        None => true,
    }
}

/// A dependency of which nothing was fetched from a registry, neither itself
/// nor anything nested below it, is the same after rewriting.
pub proof fn lemma_unresolved_is_unchanged(
    registry: RegistryView,
    package: Seq<char>,
    dependency: DependencyView,
)
    requires
        unresolved_throughout(dependency),
    ensures
        rewritten(registry, package, dependency) == dependency,
    decreases dependency,
{
    match dependency.dependencies {
        Some(children) => {
            assert forall|i: int| 0 <= i < children.len() implies rewritten_all(
                registry,
                children,
            )[i] == children[i] by {
                assert(unresolved_throughout(children[i].1));
                lemma_unresolved_is_unchanged(registry, children[i].0, children[i].1);
            }
            assert(rewritten_all(registry, children) =~= children);
        },
        None => {},
    }
}

/// Rewriting what was rewritten against the same registry metadata changes
/// nothing.
pub proof fn lemma_rewrite_is_idempotent(
    registry: RegistryView,
    package: Seq<char>,
    dependency: DependencyView,
)
    ensures
        rewritten(registry, package, rewritten(registry, package, dependency)) == rewritten(
            registry,
            package,
            dependency,
        ),
    decreases dependency,
{
    if !left_as_is(registry, package, dependency) {
        match dependency.dependencies {
            Some(children) => {
                lemma_rewrite_all_is_idempotent(registry, children);
            },
            None => {},
        }
    }
}

/// Rewriting a list of named dependencies that was rewritten against the
/// same registry metadata changes nothing.
pub proof fn lemma_rewrite_all_is_idempotent(registry: RegistryView, dependencies: DependenciesView)
    ensures
        rewritten_all(registry, rewritten_all(registry, dependencies)) == rewritten_all(
            registry,
            dependencies,
        ),
    decreases dependencies,
{
    let once = rewritten_all(registry, dependencies);
    assert forall|i: int| 0 <= i < dependencies.len() implies rewritten_all(registry, once)[i]
        == once[i] by {
        lemma_rewrite_is_idempotent(registry, dependencies[i].0, dependencies[i].1);
    }
    assert(rewritten_all(registry, once) =~= once);
}

/// Each of a list of named dependencies is rewritten by itself: what
/// rewriting makes of one does not depend on the others.
pub proof fn lemma_siblings_are_rewritten_alone(
    registry: RegistryView,
    dependencies: DependenciesView,
    others: DependenciesView,
    i: int,
)
    requires
        0 <= i < dependencies.len() == others.len(),
        others[i] == dependencies[i],
    ensures
        rewritten_all(registry, dependencies).len() == dependencies.len(),
        rewritten_all(registry, dependencies)[i] == (
            dependencies[i].0,
            rewritten(registry, dependencies[i].0, dependencies[i].1),
        ),
        rewritten_all(registry, others)[i] == rewritten_all(registry, dependencies)[i],
{
}

/// A dependency that was fetched from a registry, and of whose version the
/// registry has no manifest, stays where it is in the tree, as it is, with
/// all that nests below it.
pub proof fn lemma_missing_stays_as_it_is(
    registry: RegistryView,
    dependencies: DependenciesView,
    places: Seq<int>,
)
    requires
        node_at(dependencies, places) is Some,
        left_as_is(
            registry,
            node_at(dependencies, places)->0.package,
            node_at(dependencies, places)->0.dependency,
        ),
    ensures
        node_at(rewritten_all(registry, dependencies), places) == node_at(dependencies, places),
    decreases places.len(),
{
    if places.len() >= 2 {
        let (package, dependency) = dependencies[places[0]];
        let children = dependency.dependencies->0;
        if !left_as_is(registry, package, dependency) {
            lemma_missing_stays_as_it_is(registry, children, places.drop_first());
        }
    }
}

/// What is skipped in one of a list of named dependencies is skipped in the
/// list.
pub proof fn lemma_skipped_in_holds_skipped_of(
    registry: RegistryView,
    dependencies: DependenciesView,
    i: int,
    skipped: NotFoundView,
)
    requires
        0 <= i < dependencies.len(),
        skipped_of(registry, dependencies[i].0, dependencies[i].1).contains(skipped),
    ensures
        skipped_in(registry, dependencies).contains(skipped),
    decreases dependencies.len(),
{
    let front = skipped_in(registry, dependencies.drop_last());
    let back = skipped_of(registry, dependencies.last().0, dependencies.last().1);
    if i == dependencies.len() - 1 {
        let k = back.index_of(skipped);
        assert((front + back)[front.len() + k] == skipped);
    } else {
        assert(dependencies.drop_last()[i] == dependencies[i]);
        lemma_skipped_in_holds_skipped_of(registry, dependencies.drop_last(), i, skipped);
        let k = front.index_of(skipped);
        assert((front + back)[k] == skipped);
    }
}

/// A dependency that rewriting goes down to, that was fetched from a
/// registry, and of whose version the registry has no manifest, is recorded
/// as skipped, with its package name and version.
pub proof fn lemma_missing_is_recorded(
    registry: RegistryView,
    dependencies: DependenciesView,
    places: Seq<int>,
)
    requires
        node_at(dependencies, places) is Some,
        reaches(registry, dependencies, places),
        left_as_is(
            registry,
            node_at(dependencies, places)->0.package,
            node_at(dependencies, places)->0.dependency,
        ),
    ensures
        skipped_in(registry, dependencies).contains(
            NotFoundView {
                package: node_at(dependencies, places)->0.package,
                version: node_at(dependencies, places)->0.dependency.version,
            },
        ),
    decreases places.len(),
{
    let (package, dependency) = dependencies[places[0]];
    let found = node_at(dependencies, places)->0;
    let skipped = NotFoundView { package: found.package, version: found.dependency.version };
    if places.len() >= 2 {
        let children = dependency.dependencies->0;
        lemma_missing_is_recorded(registry, children, places.drop_first());
        assert(skipped_of(registry, package, dependency) == skipped_in(registry, children));
    } else {
        assert(skipped_of(registry, package, dependency)[0] == skipped);
    }
    lemma_skipped_in_holds_skipped_of(registry, dependencies, places[0], skipped);
}

/// Every dependency that rewriting goes down to is rewritten by itself, and
/// stands afterwards where it stood, under its name.
pub proof fn lemma_reached_is_rewritten(
    registry: RegistryView,
    dependencies: DependenciesView,
    places: Seq<int>,
)
    requires
        node_at(dependencies, places) is Some,
        reaches(registry, dependencies, places),
    ensures
        node_at(rewritten_all(registry, dependencies), places) == Some(
            Node {
                package: node_at(dependencies, places)->0.package,
                dependency: rewritten(
                    registry,
                    node_at(dependencies, places)->0.package,
                    node_at(dependencies, places)->0.dependency,
                ),
            },
        ),
    decreases places.len(),
{
    if places.len() >= 2 {
        let (package, dependency) = dependencies[places[0]];
        lemma_reached_is_rewritten(registry, dependency.dependencies->0, places.drop_first());
    }
}

/// A dependency that rewriting goes down to, that was fetched from a
/// registry, and of whose version the registry has a manifest, points at the
/// manifest's tarball afterwards and has the manifest's integrity.
pub proof fn lemma_found_takes_manifest(
    registry: RegistryView,
    dependencies: DependenciesView,
    places: Seq<int>,
)
    requires
        node_at(dependencies, places) is Some,
        reaches(registry, dependencies, places),
        node_at(dependencies, places)->0.dependency.resolved is Some,
        manifest_of(
            registry,
            node_at(dependencies, places)->0.package,
            node_at(dependencies, places)->0.dependency.version,
        ) is Some,
    ensures
        node_at(rewritten_all(registry, dependencies), places) is Some,
        ({
            let before = node_at(dependencies, places)->0;
            let after = node_at(rewritten_all(registry, dependencies), places)->0;
            let manifest = manifest_of(registry, before.package, before.dependency.version)->0;
            &&& after.package == before.package
            &&& after.dependency.version == before.dependency.version
            &&& after.dependency.resolved == Some(manifest.tarball)
            &&& after.dependency.integrity == manifest.integrity
            &&& after.dependency.passthrough == before.dependency.passthrough
        }),
{
    lemma_reached_is_rewritten(registry, dependencies, places);
}

/// Rewriting keeps the package names of every level, in order; so named
/// dependencies that are keyed by their names stay so.
pub proof fn lemma_rewrite_keeps_distinct_names(
    registry: RegistryView,
    dependencies: DependenciesView,
)
    ensures
        names_of(rewritten_all(registry, dependencies)) == names_of(dependencies),
        distinct_names(dependencies) ==> distinct_names(rewritten_all(registry, dependencies)),
    decreases dependencies,
{
    let after = rewritten_all(registry, dependencies);
    assert(names_of(after) =~= names_of(dependencies));
    if distinct_names(dependencies) {
        assert forall|i: int| 0 <= i < after.len() implies match (
        #[trigger] after[i]).1.dependencies {
            Some(children) => distinct_names(children),
            None => true,
        } by {
            let (package, dependency) = dependencies[i];
            match dependency.dependencies {
                Some(children) => {
                    assert(distinct_names(children));
                    lemma_rewrite_keeps_distinct_names(registry, children);
                },
                None => {},
            }
        }
    }
}

/// Rewriting what was rewritten against the same registry metadata skips
/// the same dependencies again.
pub proof fn lemma_skipped_again(registry: RegistryView, package: Seq<char>, dependency: DependencyView)
    ensures
        skipped_of(registry, package, rewritten(registry, package, dependency)) == skipped_of(
            registry,
            package,
            dependency,
        ),
    decreases dependency,
{
    if !left_as_is(registry, package, dependency) {
        match dependency.dependencies {
            Some(children) => {
                lemma_skipped_in_again(registry, children);
            },
            None => {},
        }
    }
}

/// Rewriting a list of named dependencies that was rewritten against the
/// same registry metadata skips the same dependencies again.
pub proof fn lemma_skipped_in_again(registry: RegistryView, dependencies: DependenciesView)
    ensures
        skipped_in(registry, rewritten_all(registry, dependencies)) == skipped_in(
            registry,
            dependencies,
        ),
    decreases dependencies,
{
    if dependencies.len() > 0 {
        let after = rewritten_all(registry, dependencies);
        assert(after.drop_last() =~= rewritten_all(registry, dependencies.drop_last()));
        lemma_skipped_in_again(registry, dependencies.drop_last());
        lemma_skipped_again(registry, dependencies.last().0, dependencies.last().1);
    }
}

} // verus!
