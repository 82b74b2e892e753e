//! Check mode: whether every dependency of a lockfile that was fetched from a
//! registry was fetched from the given one, and which were not.

use crate::lock::{
    dependencies_view, names_above, node_at, DependenciesView, Dependency, DependencyView,
    Lockfile, SUPPORTED_VERSION,
};
use crate::strmap::views;
use crate::text::starts_with;
use vstd::prelude::*;

verus! {

/// A dependency matches a registry when it was not fetched from any
/// registry, or was fetched from a URL that begins with the registry's.
pub open spec fn matches_registry(dependency: DependencyView, registry: Seq<char>) -> bool {
    match dependency.resolved {
        Some(url) => registry.is_prefix_of(url),
        None => true,
    }
}

/// Whether the dependency itself, whatever is nested below it, matches the
/// registry.
pub fn is_dep_match_registry(dependency: &Dependency, registry: &str) -> (matched: bool)
    ensures
        matched == matches_registry(dependency@, registry@),
{
    match &dependency.resolved {
        Some(url) => starts_with(url.as_str(), registry),
        None => true,
    }
}

/// A dependency found to come from another registry: its package name and
/// the package names of the dependencies it is nested in, outermost first.
#[derive(Clone, Debug, PartialEq, Eq)]
pub struct Mismatch {
    pub package: String,
    pub path: Vec<String>,
}

/// A mismatch as plain values.
pub ghost struct MismatchView {
    pub package: Seq<char>,
    pub path: Seq<Seq<char>>,
}

impl View for Mismatch {
    type V = MismatchView;

    open spec fn view(&self) -> MismatchView {
        MismatchView { package: self.package@, path: views(self.path@) }
    }
}

/// A list of mismatches as plain values.
pub open spec fn mismatches_view(mismatches: Seq<Mismatch>) -> Seq<MismatchView> {
    Seq::new(mismatches.len(), |i: int| mismatches[i]@)
}

/// The mismatches in the dependency `package`, found at `path`, and in all
/// that is nested below it: the dependency itself first, then what is nested,
/// in order.
pub open spec fn mismatches_of(
    path: Seq<Seq<char>>,
    package: Seq<char>,
    dependency: DependencyView,
    registry: Seq<char>,
) -> Seq<MismatchView>
    decreases dependency,
{
    let own = if matches_registry(dependency, registry) {
        Seq::<MismatchView>::empty()
    } else {
        seq![MismatchView { package, path }]
    };
    match dependency.dependencies {
        Some(children) => own + mismatches_in(path.push(package), children, registry),
        None => own,
    }
}

/// The mismatches in the dependencies found at `path`, in order.
pub open spec fn mismatches_in(
    path: Seq<Seq<char>>,
    dependencies: DependenciesView,
    registry: Seq<char>,
) -> Seq<MismatchView>
    decreases dependencies,
{
    if dependencies.len() == 0 {
        Seq::<MismatchView>::empty()
    } else {
        mismatches_in(path, dependencies.drop_last(), registry) + mismatches_of(
            path,
            dependencies.last().0,
            dependencies.last().1,
            registry,
        )
    }
}

/// A copy of a list of strings.
fn clone_names(names: &Vec<String>) -> (copy: Vec<String>)
    ensures
        views(copy@) == views(names@),
{
    let mut copy: Vec<String> = Vec::new();
    let mut i: usize = 0;
    while i < names.len()
        invariant
            i <= names.len(),
            copy@.len() == i,
            forall|j: int| 0 <= j < i ==> copy@[j]@ == names@[j]@,
        decreases names.len() - i,
    {
        copy.push(names[i].clone());
        i += 1;
    }
    assert(views(copy@) =~= views(names@));
    copy
}

/// Checks the dependency `package`, found at `path`, and all that is nested
/// below it against the registry. Every mismatch is added to `mismatches`;
/// the result says whether there was none.
pub fn check_dependency(
    dependency: &Dependency,
    registry: &str,
    package: &str,
    path: &mut Vec<String>,
    mismatches: &mut Vec<Mismatch>,
) -> (ok: bool)
    ensures
        final(path)@ == old(path)@,
        mismatches_view(final(mismatches)@) == mismatches_view(old(mismatches)@) + mismatches_of(
            views(old(path)@),
            package@,
            dependency@,
            registry@,
        ),
        ok == (mismatches_of(views(old(path)@), package@, dependency@, registry@).len() == 0),
    decreases dependency,
{
    let ghost before = mismatches_view(mismatches@);
    let ghost at = views(path@);
    let mut ok = is_dep_match_registry(dependency, registry);
    if !ok {
        mismatches.push(Mismatch { package: package.to_owned(), path: clone_names(path) });
        assert(mismatches_view(mismatches@) =~= before + seq![
            MismatchView { package: package@, path: at },
        ]);
    }
    let ghost own = mismatches_view(mismatches@);
    match &dependency.dependencies {
        Some(children) => {
            path.push(package.to_owned());
            let ghost below = views(path@);
            assert(below =~= at.push(package@));
            let ghost nested = dependencies_view(children@);
            let mut i: usize = 0;
            while i < children.len()
                invariant
                    i <= children.len(),
                    path@ == old(path)@.push(path@.last()),
                    path@.len() == old(path)@.len() + 1,
                    views(path@) == below,
                    dependency.dependencies == Some(*children),
                    nested == dependencies_view(children@),
                    mismatches_view(mismatches@) == own + mismatches_in(
                        below,
                        nested.take(i as int),
                        registry@,
                    ),
                    mismatches_view(mismatches@).len() >= before.len(),
                    ok == (mismatches_view(mismatches@).len() == before.len()),
                decreases children.len() - i,
            {
                proof {
                    assert(decreases_to!(dependency => dependency.dependencies->0));
                    assert(decreases_to!(*children => children[i as int]));
                }
                let child_ok = check_dependency(
                    &children[i].1,
                    registry,
                    children[i].0.as_str(),
                    path,
                    mismatches,
                );
                proof {
                    let upto = nested.take(i as int + 1);
                    assert(upto.drop_last() =~= nested.take(i as int));
                    assert(upto.last() == nested[i as int]);
                }
                ok = ok && child_ok;
                i += 1;
            }
            assert(nested.take(i as int) =~= nested);
            path.pop();
            assert(path@ =~= old(path)@);
        },
        None => {},
    }
    ok
}

/// Why a lockfile did not pass the check.
#[derive(Clone, Debug, PartialEq, Eq)]
pub enum CheckError {
    /// The lockfile is of a schema version that is not processed.
    UnsupportedVersion,
    /// These dependencies were fetched from another registry.
    OtherRegistries(Vec<Mismatch>),
}

impl CheckError {
    /// The failure in words.
    pub fn message(&self) -> (text: &'static str)
        ensures
            text@ == match self {
                CheckError::UnsupportedVersion => "Only version 1 of lockfile is supported."@,
                CheckError::OtherRegistries(_) =>
                    "This lockfile contains some packages from other registries."@,
            },
    {
        match self {
            CheckError::UnsupportedVersion => "Only version 1 of lockfile is supported.",
            CheckError::OtherRegistries(_) =>
                "This lockfile contains some packages from other registries.",
        }
    }
}

/// Checks a lockfile against the registry. A lockfile of the supported schema
/// version passes when it holds no mismatch; otherwise all its mismatches
/// are reported, in order.
pub fn check_lock(lock: &Lockfile, registry: &str) -> (verdict: Result<(), CheckError>)
    ensures
        match verdict {
            Ok(_) => lock.lockfile_version == SUPPORTED_VERSION && mismatches_in(
                Seq::empty(),
                lock@.dependencies,
                registry@,
            ).len() == 0,
            Err(CheckError::UnsupportedVersion) => lock.lockfile_version != SUPPORTED_VERSION,
            Err(CheckError::OtherRegistries(found)) => lock.lockfile_version == SUPPORTED_VERSION
                && found@.len() > 0 && mismatches_view(found@) == mismatches_in(
                Seq::empty(),
                lock@.dependencies,
                registry@,
            ),
        },
{
    if lock.lockfile_version != SUPPORTED_VERSION {
        return Err(CheckError::UnsupportedVersion);
    }
    let mut path: Vec<String> = Vec::new();
    let mut found: Vec<Mismatch> = Vec::new();
    let ghost given = lock@.dependencies;
    let ghost top = Seq::<Seq<char>>::empty();
    assert(views(path@) =~= top);
    assert(mismatches_view(found@) =~= Seq::empty());
    let mut i: usize = 0;
    while i < lock.dependencies.len()
        invariant
            i <= lock.dependencies.len(),
            given == dependencies_view(lock.dependencies@),
            views(path@) == top,
            mismatches_view(found@) == mismatches_in(top, given.take(i as int), registry@),
        decreases lock.dependencies.len() - i,
    {
        proof {
            let upto = given.take(i as int + 1);
            assert(upto.drop_last() =~= given.take(i as int));
            assert(upto.last() == given[i as int]);
        }
        check_dependency(
            &lock.dependencies[i].1,
            registry,
            lock.dependencies[i].0.as_str(),
            &mut path,
            &mut found,
        );
        i += 1;
    }
    assert(given.take(i as int) =~= given);
    if found.len() == 0 {
        Ok(())
    } else {
        Err(CheckError::OtherRegistries(found))
    }
}

/// What is a mismatch in one of a list of named dependencies is a mismatch
/// in the list.
pub proof fn lemma_mismatches_in_holds_mismatches_of(
    path: Seq<Seq<char>>,
    dependencies: DependenciesView,
    registry: Seq<char>,
    i: int,
    mismatch: MismatchView,
)
    requires
        0 <= i < dependencies.len(),
        mismatches_of(path, dependencies[i].0, dependencies[i].1, registry).contains(mismatch),
    ensures
        mismatches_in(path, dependencies, registry).contains(mismatch),
    decreases dependencies.len(),
{
    let front = mismatches_in(path, dependencies.drop_last(), registry);
    let back = mismatches_of(path, dependencies.last().0, dependencies.last().1, registry);
    if i == dependencies.len() - 1 {
        let k = back.index_of(mismatch);
        assert((front + back)[front.len() + k] == mismatch);
    } else {
        assert(dependencies.drop_last()[i] == dependencies[i]);
        lemma_mismatches_in_holds_mismatches_of(
            path,
            dependencies.drop_last(),
            registry,
            i,
            mismatch,
        );
        let k = front.index_of(mismatch);
        assert((front + back)[k] == mismatch);
    }
}

/// A dependency that does not match the registry is named among the
/// mismatches, wherever in the tree it stands: with its package name and the
/// names of the dependencies it is nested in.
pub proof fn lemma_mismatch_is_named(
    path: Seq<Seq<char>>,
    dependencies: DependenciesView,
    registry: Seq<char>,
    places: Seq<int>,
)
    requires
        node_at(dependencies, places) is Some,
        !matches_registry(node_at(dependencies, places)->0.dependency, registry),
    ensures
        mismatches_in(path, dependencies, registry).contains(
            MismatchView {
                package: node_at(dependencies, places)->0.package,
                path: path + names_above(dependencies, places),
            },
        ),
    decreases places.len(),
{
    let (package, dependency) = dependencies[places[0]];
    let found = node_at(dependencies, places)->0;
    let mismatch = MismatchView {
        package: found.package,
        path: path + names_above(dependencies, places),
    };
    let own = if matches_registry(dependency, registry) {
        Seq::<MismatchView>::empty()
    } else {
        seq![MismatchView { package, path }]
    };
    if places.len() >= 2 {
        let children = dependency.dependencies->0;
        let below = mismatches_in(path.push(package), children, registry);
        lemma_mismatch_is_named(path.push(package), children, registry, places.drop_first());
        assert(path.push(package) + names_above(children, places.drop_first()) =~= path
            + names_above(dependencies, places));
        let k = below.index_of(mismatch);
        assert((own + below)[own.len() + k] == mismatch);
    } else {
        assert(path + names_above(dependencies, places) =~= path);
        assert(mismatches_of(path, package, dependency, registry)[0] == mismatch);
    }
    lemma_mismatches_in_holds_mismatches_of(path, dependencies, registry, places[0], mismatch);
}

/// Every mismatch that is named is a dependency of the tree that does not
/// match the registry, named with its package name and the names of the
/// dependencies it is nested in. The result says where it stands.
pub proof fn lemma_named_is_mismatch(
    path: Seq<Seq<char>>,
    dependencies: DependenciesView,
    registry: Seq<char>,
    mismatch: MismatchView,
) -> (places: Seq<int>)
    requires
        mismatches_in(path, dependencies, registry).contains(mismatch),
    ensures
        node_at(dependencies, places) is Some,
        !matches_registry(node_at(dependencies, places)->0.dependency, registry),
        mismatch == (MismatchView {
            package: node_at(dependencies, places)->0.package,
            path: path + names_above(dependencies, places),
        }),
    decreases dependencies,
{
    let front = mismatches_in(path, dependencies.drop_last(), registry);
    let (package, dependency) = dependencies.last();
    let back = mismatches_of(path, package, dependency, registry);
    let last = dependencies.len() - 1;
    let k = (front + back).index_of(mismatch);
    if k < front.len() {
        assert(front[k] == mismatch);
        let places = lemma_named_is_mismatch(path, dependencies.drop_last(), registry, mismatch);
        lemma_node_of_front(dependencies, places);
        places
    } else {
        assert(back[k - front.len()] == mismatch);
        let own = if matches_registry(dependency, registry) {
            Seq::<MismatchView>::empty()
        } else {
            seq![MismatchView { package, path }]
        };
        if k - front.len() < own.len() {
            let places = seq![last];
            assert(path + names_above(dependencies, places) =~= path);
            places
        } else {
            let children = dependency.dependencies->0;
            let below = mismatches_in(path.push(package), children, registry);
            assert(below[k - front.len() - own.len()] == mismatch);
            let deeper = lemma_named_is_mismatch(path.push(package), children, registry, mismatch);
            let places = seq![last] + deeper;
            assert(places.drop_first() =~= deeper);
            assert(path.push(package) + names_above(children, deeper) =~= path + names_above(
                dependencies,
                places,
            ));
            places
        }
    }
}

/// A place in a list of named dependencies without its last is the same
/// place in the list.
proof fn lemma_node_of_front(dependencies: DependenciesView, places: Seq<int>)
    requires
        dependencies.len() > 0,
        node_at(dependencies.drop_last(), places) is Some,
    ensures
        node_at(dependencies, places) == node_at(dependencies.drop_last(), places),
        names_above(dependencies, places) == names_above(dependencies.drop_last(), places),
{
    assert(dependencies.drop_last()[places[0]] == dependencies[places[0]]);
}

/// No mismatch is found exactly when every dependency, at every depth,
/// matches the registry.
pub proof fn lemma_no_mismatch_iff_all_match(
    path: Seq<Seq<char>>,
    dependencies: DependenciesView,
    registry: Seq<char>,
)
    ensures
        mismatches_in(path, dependencies, registry).len() == 0 <==> forall|places: Seq<int>|
            (#[trigger] node_at(dependencies, places)) is Some ==> matches_registry(
                node_at(dependencies, places)->0.dependency,
                registry,
            ),
{
    let found = mismatches_in(path, dependencies, registry);
    if found.len() > 0 {
        let places = lemma_named_is_mismatch(path, dependencies, registry, found[0]);
        assert(node_at(dependencies, places) is Some);
    }
    if found.len() == 0 {
        assert forall|places: Seq<int>|
            (#[trigger] node_at(dependencies, places)) is Some implies matches_registry(
            node_at(dependencies, places)->0.dependency,
            registry,
        ) by {
            if !matches_registry(node_at(dependencies, places)->0.dependency, registry) {
                lemma_mismatch_is_named(path, dependencies, registry, places);
            }
        }
    }
}

} // verus!
