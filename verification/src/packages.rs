//! The packages that a lockfile names, each with the versions it is named
//! with.

use crate::lock::{
    dependencies_view, node_at, DependenciesView, Dependency, DependencyView, Lockfile,
    SUPPORTED_VERSION,
};
use crate::strmap::{views, StrMap, StrSet};
use vstd::prelude::*;

verus! {

/// Packages and the versions wanted of each. A package is held once, however
/// often it is named, and so is each of its versions.
#[derive(Debug)]
pub struct Packages {
    wanted: StrMap<StrSet>,
}

impl View for Packages {
    type V = Set<(Seq<char>, Seq<char>)>;

    /// The pairs of a package name and a version wanted of it.
    closed spec fn view(&self) -> Set<(Seq<char>, Seq<char>)> {
        Set::new(
            |pair: (Seq<char>, Seq<char>)|
                self.wanted@.contains_key(pair.0) && self.wanted@[pair.0]@.contains(pair.1),
        )
    }
}

/// Whether `names` holds the package names of the wanted pairs, and no
/// other.
pub open spec fn names_those_wanted(
    names: Seq<Seq<char>>,
    wanted: Set<(Seq<char>, Seq<char>)>,
) -> bool {
    &&& forall|p: Seq<char>, v: Seq<char>| #[trigger] wanted.contains((p, v)) ==> names.contains(p)
    &&& forall|p: Seq<char>| #[trigger]
        names.contains(p) ==> exists|v: Seq<char>| #[trigger] wanted.contains((p, v))
}

impl Packages {
    #[verifier::type_invariant]
    spec fn inv(&self) -> bool {
        forall|i: int|
            0 <= i < self.wanted.spec_values().len() ==> (
            #[trigger] self.wanted.spec_values()[i]).spec_items().len() > 0
    }

    /// The package names, in the order in which they were first added.
    pub closed spec fn spec_names(&self) -> Seq<Seq<char>> {
        self.wanted.spec_keys()
    }

    /// The versions wanted of each package, at the place of its name in
    /// `spec_names`, in the order in which they were first added.
    pub closed spec fn spec_versions(&self) -> Seq<Seq<Seq<char>>> {
        Seq::new(self.wanted.spec_values().len(), |i: int| self.wanted.spec_values()[i].spec_items())
    }

    /// The package names, in the order in which they were first added, each
    /// once: the packages whose metadata is to be fetched.
    pub fn names(&self) -> (names: &Vec<String>)
        ensures
            views(names@) == self.spec_names(),
            self.spec_names().no_duplicates(),
            names_those_wanted(self.spec_names(), self@),
    {
        self.entries().0
    }

    /// No package at all.
    pub fn new() -> (packages: Self)
        ensures
            packages@ == Set::<(Seq<char>, Seq<char>)>::empty(),
            packages.spec_names() == Seq::<Seq<char>>::empty(),
    {
        let packages = Packages { wanted: StrMap::new() };
        assert(packages@ =~= Set::<(Seq<char>, Seq<char>)>::empty());
        packages
    }

    /// Adds `version` to the versions wanted of `package`.
    pub fn add(&mut self, package: &str, version: &str)
        ensures
            final(self)@ == old(self)@.insert((package@, version@)),
            final(self).spec_names() == if old(self).spec_names().contains(package@) {
                old(self).spec_names()
            } else {
                old(self).spec_names().push(package@)
            },
    {
        proof {
            use_type_invariant(&*self);
        }
        let ghost before = self@;
        let mut taken = Packages { wanted: StrMap::new() };
        core::mem::swap(self, &mut taken);
        let mut wanted = taken.wanted;
        let ghost old_values = wanted.spec_values();
        let ghost old_keys = wanted.spec_keys();
        match wanted.get_mut(package) {
            Some(versions) => {
                versions.insert(version.to_owned());
            },
            None => {
                let mut versions = StrSet::new();
                versions.insert(version.to_owned());
                wanted.insert(package.to_owned(), versions);
            },
        }
        proof {
            let at = old_keys.index_of(package@);
            assert forall|i: int| 0 <= i < wanted.spec_values().len() implies (
            #[trigger] wanted.spec_values()[i]).spec_items().len() > 0 by {
                if old_keys.contains(package@) && i == at {
                } else if i < old_values.len() {
                    assert(wanted.spec_values()[i] == old_values[i]);
                }
            }
        }
        *self = Packages { wanted };
        assert(self@ =~= before.insert((package@, version@)));
    }

    /// The package names, in the order in which they were first added, and
    /// beside each the versions wanted of it.
    pub fn entries(&self) -> (entries: (&Vec<String>, &Vec<StrSet>))
        ensures
            views(entries.0@) == self.spec_names(),
            entries.0@.len() == entries.1@.len(),
            self.spec_names().no_duplicates(),
            names_those_wanted(self.spec_names(), self@),
            forall|i: int| 0 <= i < entries.1@.len() ==> (#[trigger] entries.1@[i]).spec_items().len() > 0,
            forall|p: Seq<char>, v: Seq<char>|
                self@.contains((p, v)) <==> exists|i: int|
                    0 <= i < entries.0@.len() && #[trigger] entries.0@[i]@ == p && entries.1@[i]@.contains(v),
    {
        proof {
            use_type_invariant(self);
        }
        let names = self.wanted.keys();
        let sets = self.wanted.values();
        proof {
            let keys = self.wanted.spec_keys();
            assert(names_those_wanted(keys, self@)) by {
                assert forall|p: Seq<char>| #[trigger] keys.contains(p) implies exists|v: Seq<char>| #[trigger]
                    self@.contains((p, v)) by {
                    let i = keys.index_of(p);
                    let items = self.wanted.spec_values()[i].spec_items();
                    assert(items.len() > 0);
                    assert(items.to_set().contains(items[0]));
                    assert(self@.contains((p, items[0])));
                }
            }
            assert forall|p: Seq<char>, v: Seq<char>|
                self@.contains((p, v)) <==> exists|i: int|
                    0 <= i < names@.len() && #[trigger] names@[i]@ == p && sets@[i]@.contains(
                        v,
                    ) by {
                if self@.contains((p, v)) {
                    let i = keys.index_of(p);
                    assert(names@[i]@ == p);
                }
                if exists|i: int|
                    0 <= i < names@.len() && #[trigger] names@[i]@ == p && sets@[i]@.contains(v) {
                    let i = choose|i: int|
                        0 <= i < names@.len() && #[trigger] names@[i]@ == p && sets@[i]@.contains(
                            v,
                        );
                    assert(keys[i] == p);
                }
            }
        }
        (names, sets)
    }
}

/// Whether the dependency `name`, or one nested below it, is the package
/// `package` in version `version`.
pub open spec fn occurs_at(
    name: Seq<char>,
    dependency: DependencyView,
    package: Seq<char>,
    version: Seq<char>,
) -> bool
    decreases dependency,
{
    ||| (name == package && dependency.version == version)
    ||| match dependency.dependencies {
        Some(children) => occurs_in(children, package, version),
        None => false,
    }
}

/// Whether one of the named dependencies, or one nested below them, is the
/// package `package` in version `version`.
pub open spec fn occurs_in(
    dependencies: DependenciesView,
    package: Seq<char>,
    version: Seq<char>,
) -> bool
    decreases dependencies,
{
    dependencies.len() > 0 && (occurs_in(dependencies.drop_last(), package, version) || occurs_at(
        dependencies.last().0,
        dependencies.last().1,
        package,
        version,
    ))
}

/// The pairs of a package name and a version that the named dependencies, and
/// all that is nested below them, hold.
pub open spec fn named_in(dependencies: DependenciesView) -> Set<(Seq<char>, Seq<char>)> {
    Set::new(|pair: (Seq<char>, Seq<char>)| occurs_in(dependencies, pair.0, pair.1))
}

/// What one more dependency adds to the pairs held by those before it.
proof fn lemma_named_in_step(dependencies: DependenciesView, i: int)
    requires
        0 <= i < dependencies.len(),
    ensures
        named_in(dependencies.take(i + 1)) == named_in(dependencies.take(i)).insert(
            (dependencies[i].0, dependencies[i].1.version),
        ) + match dependencies[i].1.dependencies {
            Some(children) => named_in(children),
            None => Set::empty(),
        },
{
    let before = dependencies.take(i);
    let upto = dependencies.take(i + 1);
    let below = match dependencies[i].1.dependencies {
        Some(children) => named_in(children),
        None => Set::empty(),
    };
    let own = (dependencies[i].0, dependencies[i].1.version);
    assert forall|pair: (Seq<char>, Seq<char>)|
        named_in(upto).contains(pair) <==> (named_in(before).insert(own) + below).contains(
            pair,
        ) by {
        assert(upto.drop_last() =~= before);
        assert(upto.last() == dependencies[i]);
        assert(occurs_in(upto, pair.0, pair.1) <==> occurs_in(before, pair.0, pair.1) || occurs_at(
            dependencies[i].0,
            dependencies[i].1,
            pair.0,
            pair.1,
        ));
        assert(occurs_at(dependencies[i].0, dependencies[i].1, pair.0, pair.1) <==> pair == own
            || below.contains(pair));
    }
    assert(named_in(upto) =~= named_in(before).insert(own) + below);
}

/// Adds to `packages` every package that the named dependencies, and all that
/// is nested below them, hold, each with the version it is held in.
pub fn collect_packages(dependencies: &Vec<(String, Dependency)>, packages: Packages) -> (out:
    Packages)
    ensures
        out@ == packages@ + named_in(dependencies_view(dependencies@)),
    decreases dependencies,
{
    let ghost given = dependencies_view(dependencies@);
    let mut out = packages;
    let mut i: usize = 0;
    assert(named_in(given.take(0)) =~= Set::empty());
    while i < dependencies.len()
        invariant
            i <= dependencies.len(),
            given == dependencies_view(dependencies@),
            out@ =~= packages@ + named_in(given.take(i as int)),
        decreases dependencies.len() - i,
    {
        proof {
            lemma_named_in_step(given, i as int);
            assert(decreases_to!(dependencies => dependencies[i as int]));
        }
        out.add(dependencies[i].0.as_str(), dependencies[i].1.version.as_str());
        match &dependencies[i].1.dependencies {
            Some(children) => {
                assert(decreases_to!(dependencies[i as int].1 => dependencies[i as int].1.dependencies->0));
                out = collect_packages(children, out);
            },
            None => {},
        }
        i += 1;
    }
    assert(given.take(i as int) =~= given);
    out
}

/// The packages whose metadata rewriting a lockfile needs: those that its
/// dependencies hold, or none where the lockfile is of another schema version
/// than the supported one.
pub fn wanted_packages(lock: &Lockfile) -> (packages: Packages)
    ensures
        packages@ == if lock.lockfile_version == SUPPORTED_VERSION {
            named_in(lock@.dependencies)
        } else {
            Set::empty()
        },
{
    let packages = Packages::new();
    if lock.lockfile_version != SUPPORTED_VERSION {
        return packages;
    }
    let packages = collect_packages(&lock.dependencies, packages);
    assert(packages@ =~= named_in(lock@.dependencies));
    packages
}

/// A dependency of the tree, wherever it stands, is among the pairs that
/// the tree holds, with its package name and version.
pub proof fn lemma_node_is_named(dependencies: DependenciesView, places: Seq<int>)
    requires
        node_at(dependencies, places) is Some,
    ensures
        occurs_in(
            dependencies,
            node_at(dependencies, places)->0.package,
            node_at(dependencies, places)->0.dependency.version,
        ),
    decreases places.len(),
{
    let found = node_at(dependencies, places)->0;
    let (name, dependency) = dependencies[places[0]];
    if places.len() >= 2 {
        lemma_node_is_named(dependency.dependencies->0, places.drop_first());
    }
    assert(occurs_at(name, dependency, found.package, found.dependency.version));
    lemma_occurs_in_holds_occurs_at(
        dependencies,
        places[0],
        found.package,
        found.dependency.version,
    );
}

/// What one of a list of named dependencies holds, the list holds.
pub proof fn lemma_occurs_in_holds_occurs_at(
    dependencies: DependenciesView,
    i: int,
    package: Seq<char>,
    version: Seq<char>,
)
    requires
        0 <= i < dependencies.len(),
        occurs_at(dependencies[i].0, dependencies[i].1, package, version),
    ensures
        occurs_in(dependencies, package, version),
    decreases dependencies.len(),
{
    if i < dependencies.len() - 1 {
        assert(dependencies.drop_last()[i] == dependencies[i]);
        lemma_occurs_in_holds_occurs_at(dependencies.drop_last(), i, package, version);
    }
}

/// A package is fetched once, however often the tree names it: where two
/// dependencies, at whatever places, stand under the same package name, the
/// names to fetch hold that name at exactly one place.
pub proof fn lemma_same_package_is_fetched_once(
    names: Seq<Seq<char>>,
    dependencies: DependenciesView,
    first: Seq<int>,
    second: Seq<int>,
)
    requires
        names.no_duplicates(),
        names_those_wanted(names, named_in(dependencies)),
        node_at(dependencies, first) is Some,
        node_at(dependencies, second) is Some,
        node_at(dependencies, first)->0.package == node_at(dependencies, second)->0.package,
    ensures
        exists|i: int|
            0 <= i < names.len() && #[trigger] names[i] == node_at(dependencies, first)->0.package
                && forall|j: int|
                0 <= j < names.len() && #[trigger] names[j] == node_at(
                    dependencies,
                    second,
                )->0.package ==> j == i,
{
    let found = node_at(dependencies, first)->0;
    lemma_node_is_named(dependencies, first);
    assert(named_in(dependencies).contains((found.package, found.dependency.version)));
    let i = names.index_of(found.package);
    assert(names[i] == found.package);
}

} // verus!
