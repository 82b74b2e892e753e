//! The lockfile: a tree of dependencies, each with the version that was
//! chosen for it and, where it came from a registry, the URL it was fetched
//! from.

use crate::npm::opt_view;
use std::collections::HashMap;
use vstd::prelude::*;

verus! {

/// Makes `serde_json::Value` known to the verifier as a type without
/// content. Such values are carried through untouched; nothing is stated of
/// them.
#[verifier::external_type_specification]
#[verifier::external_body]
pub struct ExValue(serde_json::Value);

/// One dependency: its own fields and the dependencies nested below it, each
/// under its package name. The names of one level are meant to be distinct
/// (see `distinct_names`); no function here depends on it.
#[derive(Debug, PartialEq)]
pub struct Dependency {
    pub version: String,
    pub resolved: Option<String>,
    pub integrity: Option<String>,
    pub dependencies: Option<Vec<(String, Dependency)>>,
    pub passthrough: HashMap<String, serde_json::Value>,
}

/// A lockfile: the schema version, the top-level dependencies, each under its
/// package name, and whatever else the file held.
#[derive(Debug, PartialEq)]
pub struct Lockfile {
    pub lockfile_version: u8,
    pub passthrough: HashMap<String, serde_json::Value>,
    pub dependencies: Vec<(String, Dependency)>,
}

/// Dependencies under their package names, as plain values.
pub type DependenciesView = Seq<(Seq<char>, DependencyView)>;

/// A dependency as plain values.
pub ghost struct DependencyView {
    pub version: Seq<char>,
    pub resolved: Option<Seq<char>>,
    pub integrity: Option<Seq<char>>,
    pub dependencies: Option<DependenciesView>,
    pub passthrough: HashMap<String, serde_json::Value>,
}

/// A lockfile as plain values.
pub ghost struct LockfileView {
    pub lockfile_version: u8,
    pub passthrough: HashMap<String, serde_json::Value>,
    pub dependencies: DependenciesView,
}

impl View for Dependency {
    type V = DependencyView;

    open spec fn view(&self) -> DependencyView
        decreases self,
    {
        DependencyView {
            version: self.version@,
            resolved: opt_view(self.resolved),
            integrity: opt_view(self.integrity),
            dependencies: match self.dependencies {
                Some(children) => Some(dependencies_view(children@)),
                None => None,
            },
            passthrough: self.passthrough,
        }
    }
}

/// A list of named dependencies as plain values.
pub open spec fn dependencies_view(dependencies: Seq<(String, Dependency)>) -> DependenciesView
    decreases dependencies,
{
    Seq::new(
        dependencies.len(),
        |i: int|
            if 0 <= i < dependencies.len() {
                (dependencies[i].0@, dependencies[i].1.view())
            } else {
                arbitrary()
            },
    )
}

impl View for Lockfile {
    type V = LockfileView;

    open spec fn view(&self) -> LockfileView {
        LockfileView {
            lockfile_version: self.lockfile_version,
            passthrough: self.passthrough,
            dependencies: dependencies_view(self.dependencies@),
        }
    }
}

/// The only schema version that is processed.
pub const SUPPORTED_VERSION: u8 = 1;

/// Whether a dependency has no nested dependencies to write out: none were
/// recorded, or the record is empty.
pub fn is_empty_dependencies(dependencies: &Option<Vec<(String, Dependency)>>) -> (empty: bool)
    ensures
        empty == match *dependencies {
            Some(children) => children@.len() == 0,
            None => true,
        },
{
    match dependencies {
        Some(children) => children.len() == 0,
        None => true,
    }
}

/// The package names of a list of named dependencies, in order.
pub open spec fn names_of(dependencies: DependenciesView) -> Seq<Seq<char>> {
    Seq::new(dependencies.len(), |i: int| dependencies[i].0)
}

/// Whether the named dependencies are keyed by their names: no package name
/// stands twice among them, nor among those nested below any one dependency,
/// at any depth.
pub open spec fn distinct_names(dependencies: DependenciesView) -> bool
    decreases dependencies,
{
    &&& names_of(dependencies).no_duplicates()
    &&& forall|i: int|
        0 <= i < dependencies.len() ==> match (#[trigger] dependencies[i]).1.dependencies {
            Some(children) => distinct_names(children),
            None => true,
        }
}

/// A dependency with the package name it stands under.
pub ghost struct Node {
    pub package: Seq<char>,
    pub dependency: DependencyView,
}

/// The dependency reached from `dependencies` by going down the tree:
/// `places` gives, level by level, the place of the dependency to take among
/// those of its level.
pub open spec fn node_at(dependencies: DependenciesView, places: Seq<int>) -> Option<Node>
    decreases places.len(),
{
    if places.len() == 0 || !(0 <= places[0] < dependencies.len()) {
        None
    } else if places.len() == 1 {
        Some(Node { package: dependencies[places[0]].0, dependency: dependencies[places[0]].1 })
    } else {
        match dependencies[places[0]].1.dependencies {
            Some(children) => node_at(children, places.drop_first()),
            None => None,
        }
    }
}

/// The package names of the dependencies passed on the way down to the one
/// at `places`, outermost first, without that one's own.
pub open spec fn names_above(dependencies: DependenciesView, places: Seq<int>) -> Seq<Seq<char>>
    decreases places.len(),
{
    if places.len() <= 1 || !(0 <= places[0] < dependencies.len()) {
        Seq::empty()
    } else {
        match dependencies[places[0]].1.dependencies {
            Some(children) => seq![dependencies[places[0]].0] + names_above(
                children,
                places.drop_first(),
            ),
            None => Seq::empty(),
        }
    }
}

} // verus!
