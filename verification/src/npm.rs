//! Registry metadata: what a registry says of one package, version by
//! version.

use crate::strmap::StrMap;
use vstd::prelude::*;

verus! {

/// Where a version's tarball is, and its content hash if the registry gave
/// one.
#[derive(Clone, Debug, PartialEq, Eq)]
pub struct Dist {
    pub tarball: String,
    pub integrity: Option<String>,
}

/// The registry's record of one version of a package.
#[derive(Clone, Debug, PartialEq, Eq)]
pub struct PackageManifest {
    pub dist: Dist,
}

/// A manifest as plain values.
pub ghost struct ManifestView {
    pub tarball: Seq<char>,
    pub integrity: Option<Seq<char>>,
}

/// An optional string as an optional character sequence.
pub open spec fn opt_view(s: Option<String>) -> Option<Seq<char>> {
    match s {
        Some(s) => Some(s@),
        None => None,
    }
}

impl View for Dist {
    type V = ManifestView;

    open spec fn view(&self) -> ManifestView {
        ManifestView { tarball: self.tarball@, integrity: opt_view(self.integrity) }
    }
}

impl View for PackageManifest {
    type V = ManifestView;

    open spec fn view(&self) -> ManifestView {
        self.dist@
    }
}

/// The manifests of one package, keyed by version.
#[derive(Debug)]
pub struct PackageInfo {
    versions: StrMap<PackageManifest>,
}

/// What a registry knows of one package: for each version it has, the
/// manifest.
pub type PackageInfoView = Map<Seq<char>, ManifestView>;

impl View for PackageInfo {
    type V = PackageInfoView;

    closed spec fn view(&self) -> PackageInfoView {
        manifests_view(self.versions@)
    }
}

/// The manifests of a version map as plain values.
spec fn manifests_view(versions: Map<Seq<char>, PackageManifest>) -> PackageInfoView {
    versions.map_values(|m: PackageManifest| m@)
}

proof fn lemma_manifests_view_insert(versions: Map<Seq<char>, PackageManifest>, version: Seq<char>)
    ensures
        forall|m: PackageManifest| #[trigger]
            manifests_view(versions.insert(version, m)) == manifests_view(versions).insert(
                version,
                m@,
            ),
{
    assert forall|m: PackageManifest| #[trigger]
        manifests_view(versions.insert(version, m)) == manifests_view(versions).insert(
            version,
            m@,
        ) by {
        assert(manifests_view(versions.insert(version, m)) =~= manifests_view(versions).insert(
            version,
            m@,
        ));
    }
}

impl PackageInfo {
    /// A package without versions.
    pub fn new() -> (info: Self)
        ensures
            info@ == PackageInfoView::empty(),
    {
        let info = PackageInfo { versions: StrMap::new() };
        assert(info@ =~= PackageInfoView::empty());
        info
    }

    /// Records `manifest` as the manifest of `version`, in place of any
    /// earlier one.
    pub fn insert(&mut self, version: String, manifest: PackageManifest)
        ensures
            final(self)@ == old(self)@.insert(version@, manifest@),
    {
        proof {
            lemma_manifests_view_insert(self.versions@, version@);
        }
        self.versions.insert(version, manifest);
    }

    /// The manifest of `version`, if the registry has that version.
    pub fn get_version_manifest(&self, version: &str) -> (found: Option<&PackageManifest>)
        ensures
            match found {
                Some(m) => self@.contains_key(version@) && m@ == self@[version@],
                None => !self@.contains_key(version@),
            },
    {
        self.versions.get(version)
    }

    /// The manifest of `version`, if the registry has that version, to be
    /// changed in place. No other version is touched.
    pub fn get_mut_version_manifest(&mut self, version: &str) -> (found: Option<
        &mut PackageManifest,
    >)
        ensures
            match found {
                Some(m) => old(self)@.contains_key(version@) && m@ == old(self)@[version@]
                    && final(self)@ == old(self)@.insert(version@, final(m)@),
                None => !old(self)@.contains_key(version@) && final(self)@ == old(self)@,
            },
    {
        proof {
            lemma_manifests_view_insert(self.versions@, version@);
        }
        self.versions.get_mut(version)
    }
}

/// What a registry knows: for each package that was fetched from it, the
/// package's versions and their manifests.
pub type RegistryView = Map<Seq<char>, PackageInfoView>;

/// The manifest that the registry has for a version of a package, if it has
/// the package and the package has the version.
pub open spec fn manifest_of(registry: RegistryView, package: Seq<char>, version: Seq<char>) -> Option<
    ManifestView,
> {
    if registry.contains_key(package) && registry[package].contains_key(version) {
        Some(registry[package][version])
    } else {
        None
    }
}

/// The package metadata fetched so far, keyed by package name. A package is
/// held once, wherever and however often a lockfile names it.
#[derive(Debug)]
pub struct ManifestCache {
    packages: StrMap<PackageInfo>,
}

/// The packages of a cache as plain values.
spec fn infos_view(packages: Map<Seq<char>, PackageInfo>) -> RegistryView {
    packages.map_values(|info: PackageInfo| info@)
}

proof fn lemma_infos_view_insert(packages: Map<Seq<char>, PackageInfo>, package: Seq<char>)
    ensures
        forall|info: PackageInfo| #[trigger]
            infos_view(packages.insert(package, info)) == infos_view(packages).insert(
                package,
                info@,
            ),
{
    assert forall|info: PackageInfo| #[trigger]
        infos_view(packages.insert(package, info)) == infos_view(packages).insert(
            package,
            info@,
        ) by {
        assert(infos_view(packages.insert(package, info)) =~= infos_view(packages).insert(
            package,
            info@,
        ));
    }
}

impl View for ManifestCache {
    type V = RegistryView;

    closed spec fn view(&self) -> RegistryView {
        infos_view(self.packages@)
    }
}

impl ManifestCache {
    /// A cache that holds no package.
    pub fn new() -> (cache: Self)
        ensures
            cache@ == RegistryView::empty(),
    {
        let cache = ManifestCache { packages: StrMap::new() };
        assert(cache@ =~= RegistryView::empty());
        cache
    }

    /// Whether the package was fetched already.
    pub fn contains(&self, package: &str) -> (found: bool)
        ensures
            found == self@.contains_key(package@),
    {
        self.packages.contains_key(package)
    }

    /// The metadata of a package, if it was fetched already.
    pub fn get(&self, package: &str) -> (found: Option<&PackageInfo>)
        ensures
            match found {
                Some(info) => self@.contains_key(package@) && info@ == self@[package@],
                None => !self@.contains_key(package@),
            },
    {
        self.packages.get(package)
    }

    /// The metadata of a package, if it was fetched already, to be changed in
    /// place. No other package is touched.
    pub fn get_mut(&mut self, package: &str) -> (found: Option<&mut PackageInfo>)
        ensures
            match found {
                Some(info) => old(self)@.contains_key(package@) && info@ == old(self)@[package@]
                    && final(self)@ == old(self)@.insert(package@, final(info)@),
                None => !old(self)@.contains_key(package@) && final(self)@ == old(self)@,
            },
    {
        proof {
            lemma_infos_view_insert(self.packages@, package@);
        }
        self.packages.get_mut(package)
    }

    /// Records the metadata fetched for a package, in place of any earlier
    /// record of it.
    pub fn insert(&mut self, package: String, info: PackageInfo)
        ensures
            final(self)@ == old(self)@.insert(package@, info@),
    {
        proof {
            lemma_infos_view_insert(self.packages@, package@);
        }
        self.packages.insert(package, info);
    }

    /// The manifest of a version of a package, if the cache holds one.
    pub fn manifest(&self, package: &str, version: &str) -> (found: Option<&PackageManifest>)
        ensures
            match found {
                Some(m) => manifest_of(self@, package@, version@) == Some(m@),
                None => manifest_of(self@, package@, version@) is None,
            },
    {
        match self.get(package) {
            Some(info) => info.get_version_manifest(version),
            None => None,
        }
    }
}

/// The URL of a package's metadata under a registry: the registry's URL, a
/// slash, and the package name.
pub open spec fn package_url_of(registry: Seq<char>, package: Seq<char>) -> Seq<char> {
    registry + seq!['/'] + package
}

/// The URL of a package's metadata under a registry.
pub fn package_url(registry: &str, package: &str) -> (url: String)
    ensures
        url@ == package_url_of(registry@, package@),
{
    proof {
        reveal_strlit("/");
    }
    let mut url = registry.to_owned();
    url.append("/");
    url.append(package);
    assert("/"@ =~= seq!['/']);
    url
}

/// What was fetched for a list of packages, as plain values: beside each
/// package name its metadata, or nothing where the fetch failed.
pub open spec fn fetched_view(fetched: Seq<(String, Option<PackageInfo>)>) -> Seq<
    (Seq<char>, Option<PackageInfoView>),
> {
    Seq::new(
        fetched.len(),
        |i: int|
            (
                fetched[i].0@,
                match fetched[i].1 {
                    Some(info) => Some(info@),
                    None => None,
                },
            ),
    )
}

/// The registry metadata made of what was fetched: each package whose fetch
/// succeeded, with its metadata; of a package fetched twice, the later.
pub open spec fn gathered(fetched: Seq<(Seq<char>, Option<PackageInfoView>)>) -> RegistryView
    decreases fetched.len(),
{
    if fetched.len() == 0 {
        RegistryView::empty()
    } else {
        match fetched.last().1 {
            Some(info) => gathered(fetched.drop_last()).insert(fetched.last().0, info),
            None => gathered(fetched.drop_last()),
        }
    }
}

/// Builds the registry metadata from what was fetched. A package whose fetch
/// failed is left out.
pub fn gather_packages_info(fetched: Vec<(String, Option<PackageInfo>)>) -> (cache: ManifestCache)
    ensures
        cache@ == gathered(fetched_view(fetched@)),
{
    let ghost given = fetched_view(fetched@);
    let ghost items = fetched@;
    let mut cache = ManifestCache::new();
    for entry in iter: fetched
        invariant
            given == fetched_view(items),
            iter.seq() == items,
            cache@ == gathered(given.take(iter.index())),
    {
        proof {
            let upto = given.take(iter.index() + 1);
            assert(upto.drop_last() =~= given.take(iter.index()));
            assert(upto.last() == given[iter.index()]);
        }
        let (package, outcome) = entry;
        match outcome {
            Some(info) => {
                cache.insert(package, info);
            },
            None => {},
        }
    }
    assert(given.take(given.len() as int) =~= given);
    cache
}

} // verus!
