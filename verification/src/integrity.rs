//! Content hashes: computing the integrity string of a tarball, finding the
//! manifests that lack one, and recording the computed ones.

use crate::npm::{manifest_of, ManifestCache, ManifestView, PackageInfo, RegistryView};
use crate::packages::Packages;
use crate::strmap::{views, StrSet};
use vstd::prelude::*;

verus! {

/// The base64 text of the SHA-1 digest of `data`, as `ssri` computes it.
/// Nothing is stated of it but that equal data has equal text.
pub uninterp spec fn sha1_base64(data: Seq<u8>) -> Seq<char>;

/// The integrity string of `data`: the algorithm's name, a hyphen, and the
/// base64 text of the digest.
pub open spec fn sha1_integrity(data: Seq<u8>) -> Seq<char> {
    seq!['s', 'h', 'a', '1', '-'] + sha1_base64(data)
}

/// Hashes `data` with `ssri`: `IntegrityOpts::new`, `algorithm` with the one
/// algorithm `Algorithm::Sha1`, `input` and `result`, and the text of the
/// resulting `Integrity`.
///
/// Believed, not proved: that the text is `sha1-` followed by the base64 text
/// of the digest, which is how `ssri` writes an integrity of one SHA-1 hash,
/// and that it depends on `data` alone.
#[verifier::external_body]
fn sha1_integrity_text(data: &[u8]) -> (text: String)
    ensures
        text@ == seq!['s', 'h', 'a', '1', '-'] + sha1_base64(data@),
{
    let mut opts = ssri::IntegrityOpts::new().algorithm(ssri::Algorithm::Sha1);
    opts.input(data);
    opts.result().to_string()
}

/// The integrity string of a tarball's bytes.
pub fn compute_sha1_ssri(file: &[u8]) -> (ssri: String)
    ensures
        ssri@ == sha1_integrity(file@),
        ssri@.len() >= 5,
{
    sha1_integrity_text(file)
}

/// A version of a package whose manifest came without an integrity: the
/// package name, the version, and the tarball to hash.
#[derive(Clone, Debug, PartialEq, Eq)]
pub struct MissingSsri {
    pub package: String,
    pub version: String,
    pub tarball: String,
}

/// Whether the registry has a manifest for the version of the package, and
/// the manifest has no integrity.
pub open spec fn lacks_integrity(
    registry: RegistryView,
    package: Seq<char>,
    version: Seq<char>,
) -> bool {
    match manifest_of(registry, package, version) {
        Some(manifest) => manifest.integrity is None,
        None => false,
    }
}

/// Whether `missing` names a wanted version of a package whose manifest has
/// no integrity, together with that manifest's tarball.
pub open spec fn is_missing(
    wanted: Set<(Seq<char>, Seq<char>)>,
    registry: RegistryView,
    missing: MissingSsri,
) -> bool {
    &&& wanted.contains((missing.package@, missing.version@))
    &&& lacks_integrity(registry, missing.package@, missing.version@)
    &&& missing.tarball@ == registry[missing.package@][missing.version@].tarball
}

/// Whether the list names the version of the package.
pub open spec fn lists(missing: Seq<MissingSsri>, package: Seq<char>, version: Seq<char>) -> bool {
    exists|i: int|
        0 <= i < missing.len() && (#[trigger] missing[i]).package@ == package && missing[i].version@
            == version
}

/// Whether no version of a package is named twice in the list.
pub open spec fn names_each_once(missing: Seq<MissingSsri>) -> bool {
    forall|i: int, j: int|
        0 <= i < j < missing.len() ==> !((#[trigger] missing[i]).package@ == (
        #[trigger] missing[j]).package@ && missing[i].version@ == missing[j].version@)
}

/// Adds to `missing` the versions in `versions` of which the package
/// `package` has a manifest without integrity.
fn missing_of_package(
    package: &String,
    versions: &StrSet,
    info: &PackageInfo,
    missing: &mut Vec<MissingSsri>,
)
    ensures
        final(missing)@.len() >= old(missing)@.len(),
        final(missing)@.take(old(missing)@.len() as int) == old(missing)@,
        forall|i: int|
            old(missing)@.len() <= i < final(missing)@.len() ==> {
                let found = #[trigger] final(missing)@[i];
                &&& found.package@ == package@
                &&& versions@.contains(found.version@)
                &&& info@.contains_key(found.version@)
                &&& info@[found.version@].integrity is None
                &&& found.tarball@ == info@[found.version@].tarball
            },
        forall|v: Seq<char>|
            versions@.contains(v) && info@.contains_key(v) && info@[v].integrity is None ==> lists(
                final(missing)@,
                package@,
                v,
            ),
        forall|i: int, j: int|
            old(missing)@.len() <= i < j < final(missing)@.len() ==> (
            #[trigger] final(missing)@[i]).version@ != (#[trigger] final(missing)@[j]).version@,
{
    let items = versions.items();
    let ghost before = missing@;
    let ghost mut origins: Seq<int> = Seq::empty();
    let mut j: usize = 0;
    while j < items.len()
        invariant
            j <= items@.len(),
            views(items@) == versions.spec_items(),
            views(items@).no_duplicates(),
            missing@.len() == before.len() + origins.len(),
            missing@.take(before.len() as int) == before,
            forall|a: int|
                0 <= a < origins.len() ==> {
                    let found = #[trigger] missing@[before.len() + a];
                    &&& 0 <= origins[a] < j
                    &&& found.version@ == items@[origins[a]]@
                    &&& found.package@ == package@
                    &&& info@.contains_key(found.version@)
                    &&& info@[found.version@].integrity is None
                    &&& found.tarball@ == info@[found.version@].tarball
                },
            forall|a: int| 0 <= a < origins.len() ==> 0 <= #[trigger] origins[a] < j,
            forall|a: int, b: int|
                0 <= a < b < origins.len() ==> #[trigger] origins[a] < #[trigger] origins[b],
            forall|l: int|
                0 <= l < j && info@.contains_key(#[trigger] items@[l]@) && info@[items@[l]@].integrity
                    is None ==> lists(missing@, package@, items@[l]@),
        decreases items.len() - j,
    {
        let ghost so_far = missing@;
        match info.get_version_manifest(items[j].as_str()) {
            Some(manifest) => {
                if manifest.dist.integrity.is_none() {
                    missing.push(
                        MissingSsri {
                            package: package.clone(),
                            version: items[j].clone(),
                            tarball: manifest.dist.tarball.clone(),
                        },
                    );
                    proof {
                        origins = origins.push(j as int);
                        assert(missing@.take(before.len() as int) =~= before);
                    }
                }
            },
            None => {},
        }
        proof {
            assert forall|l: int|
                0 <= l < j + 1 && info@.contains_key(#[trigger] items@[l]@)
                    && info@[items@[l]@].integrity is None implies lists(
                missing@,
                package@,
                items@[l]@,
            ) by {
                if l < j {
                    let a = choose|a: int|
                        0 <= a < so_far.len() && (#[trigger] so_far[a]).package@ == package@
                            && so_far[a].version@ == items@[l]@;
                    assert(missing@[a] == so_far[a]);
                } else {
                    assert(missing@[missing@.len() - 1].version@ == items@[l]@);
                }
            }
        }
        j += 1;
    }
    proof {
        assert forall|i: int| before.len() <= i < missing@.len() implies {
            let found = #[trigger] missing@[i];
            &&& found.package@ == package@
            &&& versions@.contains(found.version@)
            &&& info@.contains_key(found.version@)
            &&& info@[found.version@].integrity is None
            &&& found.tarball@ == info@[found.version@].tarball
        } by {
            let a = i - before.len();
            assert(missing@[before.len() + a] == missing@[i]);
            assert(views(items@)[origins[a]] == missing@[i].version@);
        }
        assert forall|v: Seq<char>|
            versions@.contains(v) && info@.contains_key(v) && info@[v].integrity is None implies lists(
            missing@,
            package@,
            v,
        ) by {
            let l = views(items@).index_of(v);
            assert(items@[l]@ == v);
        }
        assert forall|i: int, j: int| before.len() <= i < j < missing@.len() implies (
        #[trigger] missing@[i]).version@ != (#[trigger] missing@[j]).version@ by {
            let a = i - before.len();
            let b = j - before.len();
            assert(missing@[before.len() + a] == missing@[i]);
            assert(missing@[before.len() + b] == missing@[j]);
            assert(origins[a] < origins[b]);
            assert(views(items@)[origins[a]] != views(items@)[origins[b]]);
        }
    }
}

/// The wanted versions of packages whose manifests have no integrity: each
/// of them, once, with the tarball to hash.
pub fn missing_ssri(packages: &Packages, packages_info: &ManifestCache) -> (missing: Vec<
    MissingSsri,
>)
    ensures
        forall|i: int|
            0 <= i < missing@.len() ==> is_missing(packages@, packages_info@, #[trigger] missing@[i]),
        forall|p: Seq<char>, v: Seq<char>|
            packages@.contains((p, v)) && lacks_integrity(packages_info@, p, v) ==> lists(
                missing@,
                p,
                v,
            ),
        names_each_once(missing@),
{
    let (names, sets) = packages.entries();
    let mut missing: Vec<MissingSsri> = Vec::new();
    let mut i: usize = 0;
    while i < names.len()
        invariant
            i <= names@.len() == sets@.len(),
            views(names@).no_duplicates(),
            forall|p: Seq<char>, v: Seq<char>|
                packages@.contains((p, v)) <==> exists|k: int|
                    0 <= k < names@.len() && #[trigger] names@[k]@ == p && sets@[k]@.contains(v),
            forall|a: int|
                0 <= a < missing@.len() ==> is_missing(
                    packages@,
                    packages_info@,
                    #[trigger] missing@[a],
                ),
            forall|a: int|
                0 <= a < missing@.len() ==> views(names@).take(i as int).contains(
                    (#[trigger] missing@[a]).package@,
                ),
            names_each_once(missing@),
            forall|k: int, v: Seq<char>|
                0 <= k < i && #[trigger] sets@[k]@.contains(v) && lacks_integrity(
                    packages_info@,
                    names@[k]@,
                    v,
                ) ==> lists(missing@, names@[k]@, v),
        decreases names.len() - i,
    {
        let ghost so_far = missing@;
        match packages_info.get(names[i].as_str()) {
            Some(info) => {
                missing_of_package(&names[i], &sets[i], info, &mut missing);
            },
            None => {},
        }
        proof {
            let name = names@[i as int]@;
            assert(views(names@)[i as int] == name);
            assert(missing@.take(so_far.len() as int) == so_far);
            assert forall|a: int| 0 <= a < so_far.len() implies missing@[a] == so_far[a] by {
                assert(missing@.take(so_far.len() as int)[a] == missing@[a]);
            }
            assert forall|a: int| 0 <= a < missing@.len() implies is_missing(
                packages@,
                packages_info@,
                #[trigger] missing@[a],
            ) by {
                if a < so_far.len() {
                    assert(is_missing(packages@, packages_info@, so_far[a]));
                } else {
                    assert(sets@[i as int]@.contains(missing@[a].version@));
                    assert(packages@.contains((name, missing@[a].version@)));
                }
            }
            assert forall|a: int| 0 <= a < missing@.len() implies views(names@).take(
                i as int + 1,
            ).contains((#[trigger] missing@[a]).package@) by {
                if a < so_far.len() {
                    assert(views(names@).take(i as int).contains(so_far[a].package@));
                    let k = views(names@).take(i as int).index_of(missing@[a].package@);
                    assert(views(names@).take(i as int + 1)[k] == missing@[a].package@);
                } else {
                    assert(views(names@).take(i as int + 1)[i as int] == name);
                }
            }
            assert(names_each_once(missing@)) by {
                assert forall|a: int, b: int| 0 <= a < b < missing@.len() implies !((
                #[trigger] missing@[a]).package@ == (#[trigger] missing@[b]).package@
                    && missing@[a].version@ == missing@[b].version@) by {
                    if b < so_far.len() {
                        assert(missing@[a] == so_far[a]);
                        assert(missing@[b] == so_far[b]);
                    } else if a < so_far.len() {
                        assert(views(names@).take(i as int).contains(so_far[a].package@));
                        let k = views(names@).take(i as int).index_of(missing@[a].package@);
                        assert(views(names@)[k] == missing@[a].package@);
                    } else {
                    }
                }
            }
            assert forall|k: int, v: Seq<char>|
                0 <= k < i + 1 && #[trigger] sets@[k]@.contains(v) && lacks_integrity(
                    packages_info@,
                    names@[k]@,
                    v,
                ) implies lists(missing@, names@[k]@, v) by {
                if k < i {
                    let a = choose|a: int|
                        0 <= a < so_far.len() && (#[trigger] so_far[a]).package@ == names@[k]@
                            && so_far[a].version@ == v;
                    assert(missing@[a] == so_far[a]);
                }
            }
        }
        i += 1;
    }
    proof {
        assert forall|p: Seq<char>, v: Seq<char>|
            packages@.contains((p, v)) && lacks_integrity(packages_info@, p, v) implies lists(
            missing@,
            p,
            v,
        ) by {
            let k = choose|k: int|
                0 <= k < names@.len() && #[trigger] names@[k]@ == p && sets@[k]@.contains(v);
        }
    }
    missing
}

/// An integrity that was computed for a version of a package.
#[derive(Clone, Debug, PartialEq, Eq)]
pub struct ComputedSsri {
    pub package: String,
    pub version: String,
    pub ssri: String,
}

/// A computed integrity as plain values.
pub ghost struct ComputedSsriView {
    pub package: Seq<char>,
    pub version: Seq<char>,
    pub ssri: Seq<char>,
}

impl View for ComputedSsri {
    type V = ComputedSsriView;

    open spec fn view(&self) -> ComputedSsriView {
        ComputedSsriView { package: self.package@, version: self.version@, ssri: self.ssri@ }
    }
}

/// A list of computed integrities as plain values.
pub open spec fn computed_view(computed: Seq<ComputedSsri>) -> Seq<ComputedSsriView> {
    Seq::new(computed.len(), |i: int| computed[i]@)
}

/// The registry metadata with `ssri` as the integrity of the version of the
/// package, where its manifest lacks one. An integrity that the registry gave
/// stays, and so does metadata that has no manifest for that version.
pub open spec fn with_integrity(
    registry: RegistryView,
    package: Seq<char>,
    version: Seq<char>,
    ssri: Seq<char>,
) -> RegistryView {
    if lacks_integrity(registry, package, version) {
        registry.insert(
            package,
            registry[package].insert(
                version,
                ManifestView { integrity: Some(ssri), ..registry[package][version] },
            ),
        )
    } else {
        registry
    }
}

/// The registry metadata with each of the computed integrities recorded, in
/// order.
pub open spec fn with_integrities(
    registry: RegistryView,
    computed: Seq<ComputedSsriView>,
) -> RegistryView
    decreases computed.len(),
{
    if computed.len() == 0 {
        registry
    } else {
        with_integrity(
            with_integrities(registry, computed.drop_last()),
            computed.last().package,
            computed.last().version,
            computed.last().ssri,
        )
    }
}

/// Records `ssri` as the integrity of the version of the package, where the
/// metadata has a manifest for it that lacks one.
pub fn set_integrity(packages_info: &mut ManifestCache, package: &str, version: &str, ssri: String)
    ensures
        final(packages_info)@ == with_integrity(old(packages_info)@, package@, version@, ssri@),
{
    match packages_info.get_mut(package) {
        Some(info) => {
            match info.get_mut_version_manifest(version) {
                Some(manifest) => {
                    if manifest.dist.integrity.is_none() {
                        manifest.dist.integrity = Some(ssri);
                    }
                },
                None => {},
            }
        },
        None => {},
    }
    assert(packages_info@ =~~= with_integrity(old(packages_info)@, package@, version@, ssri@));
}

/// Records each of the computed integrities in the registry metadata.
pub fn fill_missing_ssri(packages_info: &mut ManifestCache, computed: Vec<ComputedSsri>)
    ensures
        final(packages_info)@ == with_integrities(old(packages_info)@, computed_view(computed@)),
{
    let ghost given = computed_view(computed@);
    let ghost items = computed@;
    for entry in iter: computed
        invariant
            given == computed_view(items),
            iter.seq() == items,
            packages_info@ == with_integrities(old(packages_info)@, given.take(iter.index())),
    {
        proof {
            let upto = given.take(iter.index() + 1);
            assert(upto.drop_last() =~= given.take(iter.index()));
            assert(upto.last() == given[iter.index()]);
        }
        let ComputedSsri { package, version, ssri } = entry;
        set_integrity(packages_info, package.as_str(), version.as_str(), ssri);
    }
    assert(given.take(given.len() as int) =~= given);
}

/// Whether the list holds a computed integrity for the version of the
/// package.
pub open spec fn computes(
    computed: Seq<ComputedSsriView>,
    package: Seq<char>,
    version: Seq<char>,
) -> bool {
    exists|i: int|
        0 <= i < computed.len() && (#[trigger] computed[i]).package == package
            && computed[i].version == version
}

/// Recording one integrity keeps every manifest where it is, with its
/// tarball, and keeps every integrity that was there.
pub proof fn lemma_with_integrity_keeps(
    registry: RegistryView,
    package: Seq<char>,
    version: Seq<char>,
    ssri: Seq<char>,
    p: Seq<char>,
    v: Seq<char>,
)
    ensures
        match manifest_of(registry, p, v) {
            Some(before) => match manifest_of(with_integrity(registry, package, version, ssri), p, v) {
                Some(after) => after.tarball == before.tarball && (before.integrity is Some
                    ==> after == before) && (before.integrity is None ==> after.integrity == if p
                    == package && v == version {
                    Some(ssri)
                } else {
                    None
                }),
                None => false,
            },
            None => manifest_of(with_integrity(registry, package, version, ssri), p, v) is None,
        },
{
}

/// Recording computed integrities keeps every manifest where it is, with its
/// tarball, and keeps every integrity that the registry gave. A manifest
/// that lacked an integrity has one afterwards exactly if one was computed
/// for it.
pub proof fn lemma_with_integrities_keeps(
    registry: RegistryView,
    computed: Seq<ComputedSsriView>,
    p: Seq<char>,
    v: Seq<char>,
)
    ensures
        match manifest_of(registry, p, v) {
            Some(before) => match manifest_of(with_integrities(registry, computed), p, v) {
                Some(after) => after.tarball == before.tarball && (before.integrity is Some
                    ==> after == before) && (before.integrity is None ==> (after.integrity is Some
                    <==> computes(computed, p, v))),
                None => false,
            },
            None => manifest_of(with_integrities(registry, computed), p, v) is None,
        },
    decreases computed.len(),
{
    if computed.len() > 0 {
        let front = computed.drop_last();
        let last = computed.last();
        lemma_with_integrities_keeps(registry, front, p, v);
        lemma_with_integrity_keeps(
            with_integrities(registry, front),
            last.package,
            last.version,
            last.ssri,
            p,
            v,
        );
        if computes(front, p, v) {
            let i = choose|i: int|
                0 <= i < front.len() && (#[trigger] front[i]).package == p && front[i].version == v;
            assert(computed[i] == front[i]);
        }
        if computes(computed, p, v) {
            let i = choose|i: int|
                0 <= i < computed.len() && (#[trigger] computed[i]).package == p
                    && computed[i].version == v;
            if i < front.len() {
                assert(front[i] == computed[i]);
            }
        }
        if last.package == p && last.version == v {
            assert(computed[computed.len() - 1] == last);
        }
    }
}

/// Once an integrity was computed for every wanted version whose manifest
/// lacked one, and recorded, every manifest of a wanted version has an
/// integrity.
pub proof fn lemma_no_integrity_is_missing(
    wanted: Set<(Seq<char>, Seq<char>)>,
    registry: RegistryView,
    computed: Seq<ComputedSsriView>,
)
    requires
        forall|p: Seq<char>, v: Seq<char>|
            wanted.contains((p, v)) && #[trigger] lacks_integrity(registry, p, v) ==> computes(
                computed,
                p,
                v,
            ),
    ensures
        forall|p: Seq<char>, v: Seq<char>|
            wanted.contains((p, v)) ==> !#[trigger] lacks_integrity(
                with_integrities(registry, computed),
                p,
                v,
            ),
{
    assert forall|p: Seq<char>, v: Seq<char>| wanted.contains((p, v)) implies !#[trigger] lacks_integrity(
        with_integrities(registry, computed),
        p,
        v,
    ) by {
        lemma_with_integrities_keeps(registry, computed, p, v);
        if lacks_integrity(registry, p, v) {
            assert(computes(computed, p, v));
        }
    }
}

} // verus!
