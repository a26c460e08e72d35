//! Feature combinations of the packages of a cargo workspace: each package's
//! features are numbered in dependency order, and the combinations of the
//! features that are neither required nor ignored are enumerated without
//! repetition.
pub mod collect_result;
pub mod feature_set;
pub mod interner;
pub mod limits;
pub mod metadata;
pub mod powerset;

use crate::collect_result::{collect_results, err_values, ok_values};
use crate::feature_set::order::{closure_sets, names_of, placement};
use crate::feature_set::{
    builder_fails, builder_fits, builder_strings, declared_entries, declared_names,
    default_features, extends, lemma_builder_extends, lemma_builder_under, lemma_parsed_references,
    lemma_references_extend, references, section_ignored, section_required,
    FeatureSet, FeatureSetBuilder, FeatureSetError, Reference,
};
use crate::interner::{
    interned, interner_wf, into_reader, new_interner, reader_strings, share,
};
use crate::metadata::{
    intern_section, section_fits, FeaturexMetadata, FeaturexMetadataError, FeaturexSection,
};
use crate::limits::{fits_limits, workspace_fits};
use lasso::{MiniSpur, Rodeo, RodeoReader};
use std::rc::Rc;
use vstd::prelude::*;

verus! {

/// The features that a package's and the workspace's list name, by position.
pub open spec fn metadata_set(
    package: Seq<Reference>,
    workspace: Seq<Reference>,
    fnames: Seq<Seq<char>>,
) -> Set<nat> {
    feature_set::position_set(feature_set::found_positions(package, fnames)).union(
        feature_set::position_set(feature_set::found_positions(workspace, fnames)),
    )
}

/// What the library reads of a package of the workspace.
pub struct PackageManifest {
    /// The package's id.
    pub id: String,
    pub name: String,
    pub version: String,
    pub manifest_path: String,
    /// The package's features, each with the dependencies it declares.
    pub features: Vec<(String, Vec<String>)>,
    /// The `featurex` section of the package's metadata: absent, present, or
    /// malformed.
    pub featurex: Result<Option<FeaturexSection>, FeaturexMetadataError>,
}

/// The identity of a package.
#[derive(Debug)]
pub struct PackageInfo {
    pub name: String,
    pub version: String,
    pub id: String,
}

/// A package of the workspace with its features.
pub struct Package {
    pub name: String,
    pub version: String,
    pub id: String,
    pub manifest_path: String,
    pub features: FeatureSet,
}

impl Package {
    /// The package's id.
    pub fn id(&self) -> (r: &str)
        ensures
            r@ == self.id@,
    {
        self.id.as_str()
    }

    /// The package's name.
    pub fn name(&self) -> (r: &str)
        ensures
            r@ == self.name@,
    {
        self.name.as_str()
    }

    /// The package's version.
    pub fn version(&self) -> (r: &str)
        ensures
            r@ == self.version@,
    {
        self.version.as_str()
    }

    /// The path of the package's manifest.
    pub fn manifest_path(&self) -> (r: &str)
        ensures
            r@ == self.manifest_path@,
    {
        self.manifest_path.as_str()
    }

    /// The package's name, version and id.
    pub fn info(&self) -> (r: PackageInfo)
        ensures
            r.name@ == self.name@,
            r.version@ == self.version@,
            r.id@ == self.id@,
    {
        PackageInfo { name: self.name.clone(), version: self.version.clone(), id: self.id.clone() }
    }
}

/// A package whose features are built but not yet tied to the read-only
/// interner.
struct PackageBuilder {
    name: String,
    version: String,
    id: String,
    manifest_path: String,
    features: FeatureSetBuilder,
}

impl PackageBuilder {
    /// The package, with its features tied to `strings`.
    fn build(self, strings: Rc<RodeoReader<MiniSpur>>) -> (r: Package)
        requires
            self.features.valid_in(reader_strings(*strings)),
        ensures
            r.name == self.name,
            r.version == self.version,
            r.id == self.id,
            r.manifest_path == self.manifest_path,
            r.features.len() == self.features.len(),
            r.features.names() == self.features.names_in(reader_strings(*strings)),
            forall|i: int|
                0 <= i < self.features.len() ==> r.features.set_at(i) == self.features.set_at(i),
            r.features.required_set() == self.features.required_set(),
            r.features.ignored_set() == self.features.ignored_set(),
            r.features.default_set() == self.features.default_set(),
    {
        Package {
            name: self.name,
            version: self.version,
            id: self.id,
            manifest_path: self.manifest_path,
            features: self.features.build(strings),
        }
    }
}

/// The feature set of a package could not be made.
#[derive(Debug)]
pub struct PackageError {
    pub package_id: String,
    pub cause: FeatureSetError,
}

impl PackageError {
    fn new(package: &PackageManifest, cause: FeatureSetError) -> (r: Self)
        ensures
            r.package_id@ == package.id@,
            r.cause == cause,
    {
        PackageError { package_id: package.id.clone(), cause }
    }
}

impl Package {
    /// Builds the features of `package` (see `FeatureSet::builder`).
    fn builder(
        strings: &mut Rodeo<MiniSpur>,
        package: &PackageManifest,
        metadata: &FeaturexMetadata,
    ) -> (r: Result<PackageBuilder, PackageError>)
        requires
            interner_wf(interned(*old(strings))),
            declared_names(package.features@).no_duplicates(),
            feature_set::workspace_keys_valid(*metadata, interned(*old(strings))),
            builder_fits(
                *package,
                references(metadata.required@, interned(*old(strings))),
                references(metadata.ignored@, interned(*old(strings))),
                interned(*old(strings)),
            ),
        ensures
            interner_wf(interned(*final(strings))),
            interned(*final(strings)) == builder_strings(*package, interned(*old(strings))),
            r is Err <==> builder_fails(
                *package,
                references(metadata.required@, interned(*old(strings))),
                references(metadata.ignored@, interned(*old(strings))),
            ),
            r matches Err(e) ==> e.package_id@ == package.id@,
            r matches Ok(b) ==> b.name@ == package.name@ && b.version@ == package.version@
                && b.id@ == package.id@ && b.manifest_path@ == package.manifest_path@
                && b.features.built_as(
                placement(declared_entries(package.features@), Seq::empty())->0,
                interned(*final(strings)),
            ) && b.features.valid_in(interned(*final(strings)))
                && b.features.required_set() == metadata_set(
                section_required(package.featurex->Ok_0),
                references(metadata.required@, interned(*old(strings))),
                names_of(placement(declared_entries(package.features@), Seq::empty())->0),
            ) && b.features.ignored_set() == metadata_set(
                section_ignored(package.featurex->Ok_0),
                references(metadata.ignored@, interned(*old(strings))),
                names_of(placement(declared_entries(package.features@), Seq::empty())->0),
            ),
    {
        let features = match FeatureSet::builder(strings, package, metadata) {
            Ok(f) => f,
            Err(e) => {
                return Err(PackageError::new(package, e));
            },
        };
        Ok(
            PackageBuilder {
                name: package.name.clone(),
                version: package.version.clone(),
                id: package.id.clone(),
                manifest_path: package.manifest_path.clone(),
                features,
            },
        )
    }
}

/// The packages of a workspace.
pub struct Workspace {
    _strings: Rc<RodeoReader<MiniSpur>>,
    packages: Vec<Package>,
    root: Option<usize>,
}

impl Workspace {
    /// The root package, if there is one, is a package of the workspace.
    #[verifier::type_invariant]
    spec fn inv(&self) -> bool {
        self.root matches Some(i) ==> i < self.packages@.len()
    }

    /// All packages of the workspace.
    pub closed spec fn package_list(&self) -> Seq<Package> {
        self.packages@
    }

    /// The position of the root package.
    pub closed spec fn root_index(&self) -> Option<usize> {
        self.root
    }

    /// The packages to work on: the root package alone when there is one,
    /// otherwise every package.
    pub fn packages(&self) -> (r: &[Package])
        ensures
            self.root_index() matches Some(i) ==> r@ == self.package_list().subrange(
                i as int,
                i + 1,
            ),
            self.root_index() is None ==> r@ == self.package_list(),
            self.root_index() matches Some(i) ==> i < self.package_list().len(),
    {
        proof {
            use_type_invariant(self);
        }
        let n = self.packages.len();
        match self.root {
            Some(root) => &self.packages.as_slice()[root..root + 1],
            None => self.packages.as_slice(),
        }
    }

    /// All packages of the workspace.
    pub fn all_packages(&self) -> (r: &[Package])
        ensures
            r@ == self.package_list(),
            self.root_index() matches Some(i) ==> i < self.package_list().len(),
    {
        proof {
            use_type_invariant(self);
        }
        self.packages.as_slice()
    }

    /// The root package, if there is one.
    pub fn root(&self) -> (r: Option<&Package>)
        ensures
            self.root_index() matches Some(i) ==> r == Some(&self.package_list()[i as int]),
            self.root_index() is None ==> r is None,
            self.root_index() matches Some(i) ==> i < self.package_list().len(),
    {
        proof {
            use_type_invariant(self);
        }
        match self.root {
            Some(i) => Some(&self.packages[i]),
            None => None,
        }
    }
}

/// Why the workspace could not be read.
#[derive(Debug)]
pub enum WorkspaceFailure {
    /// The workspace's `featurex` metadata could not be read.
    Metadata(FeaturexMetadataError),
    /// The feature sets of these packages could not be made.
    Packages(Vec<PackageError>),
}

/// The workspace could not be read.
#[derive(Debug)]
pub struct GetWorkspaceError {
    pub cause: WorkspaceFailure,
}

/// Whether `members` lists the id `id`.
pub open spec fn id_listed(members: Seq<String>, id: Seq<char>) -> bool {
    exists|i: int| 0 <= i < members.len() && members[i]@ == id
}

/// The packages whose ids `members` lists, in order.
pub open spec fn member_manifests(packages: Seq<PackageManifest>, members: Seq<String>) -> Seq<
    PackageManifest,
>
    decreases packages.len(),
{
    if packages.len() == 0 {
        Seq::empty()
    } else {
        let init = member_manifests(packages.drop_last(), members);
        if id_listed(members, packages.last().id@) {
            init.push(packages.last())
        } else {
            init
        }
    }
}

/// The interner after building `pkgs` in order from `s`.
pub open spec fn strings_after(pkgs: Seq<PackageManifest>, s: Seq<Seq<char>>) -> Seq<Seq<char>>
    decreases pkgs.len(),
{
    if pkgs.len() == 0 {
        s
    } else {
        builder_strings(pkgs.last(), strings_after(pkgs.drop_last(), s))
    }
}

/// Every package has distinct feature names and fits the builder when its turn
/// comes.
pub open spec fn packages_fit(
    pkgs: Seq<PackageManifest>,
    wr: Seq<Reference>,
    wi: Seq<Reference>,
    s: Seq<Seq<char>>,
) -> bool {
    forall|k: int|
        0 <= k < pkgs.len() ==> declared_names((#[trigger] pkgs[k]).features@).no_duplicates()
            && builder_fits(pkgs[k], wr, wi, strings_after(pkgs.take(k), s))
}

/// The ids of the packages whose feature sets cannot be made, in order.
pub open spec fn failing_ids(pkgs: Seq<PackageManifest>, wr: Seq<Reference>, wi: Seq<Reference>) -> Seq<
    Seq<char>,
>
    decreases pkgs.len(),
{
    if pkgs.len() == 0 {
        Seq::empty()
    } else {
        let init = failing_ids(pkgs.drop_last(), wr, wi);
        if builder_fails(pkgs.last(), wr, wi) {
            init.push(pkgs.last().id@)
        } else {
            init
        }
    }
}

/// The package `p` holds the features of `m`, as built with the workspace's
/// lists `wr` and `wi`.
pub open spec fn package_built_from(
    p: Package,
    m: PackageManifest,
    wr: Seq<Reference>,
    wi: Seq<Reference>,
) -> bool {
    let order = placement(declared_entries(m.features@), Seq::empty())->0;
    let fnames = names_of(order);
    &&& p.id@ == m.id@
    &&& p.name@ == m.name@
    &&& p.version@ == m.version@
    &&& p.manifest_path@ == m.manifest_path@
    &&& p.features.len() == order.len()
    &&& p.features.names() == fnames
    &&& forall|i: int| 0 <= i < order.len() ==> p.features.set_at(i) == closure_sets(order)[i]
    &&& p.features.default_set() == default_features(order)
    &&& p.features.required_set() == metadata_set(section_required(m.featurex->Ok_0), wr, fnames)
    &&& p.features.ignored_set() == metadata_set(section_ignored(m.featurex->Ok_0), wi, fnames)
}

/// The position of the first package with id `id`, or the length when none has it.
pub open spec fn id_position(pkgs: Seq<PackageManifest>, id: Seq<char>) -> int
    decreases pkgs.len(),
{
    if pkgs.len() == 0 {
        0
    } else if pkgs[0].id@ == id {
        0
    } else {
        1 + id_position(pkgs.drop_first(), id)
    }
}

pub(crate) proof fn lemma_id_position(pkgs: Seq<PackageManifest>, id: Seq<char>)
    ensures
        0 <= id_position(pkgs, id) <= pkgs.len(),
        id_position(pkgs, id) < pkgs.len() ==> pkgs[id_position(pkgs, id)].id@ == id,
        forall|q: int| 0 <= q < id_position(pkgs, id) ==> (#[trigger] pkgs[q]).id@ != id,
    decreases pkgs.len(),
{
    if pkgs.len() > 0 && pkgs[0].id@ != id {
        lemma_id_position(pkgs.drop_first(), id);
        assert forall|q: int| 0 <= q < id_position(pkgs, id) implies (#[trigger] pkgs[q]).id@ != id by {
            if q > 0 {
                assert(pkgs[q] == pkgs.drop_first()[q - 1]);
            }
        }
    }
}

proof fn lemma_strings_after_extends(pkgs: Seq<PackageManifest>, s: Seq<Seq<char>>, k: int)
    requires
        0 <= k <= pkgs.len(),
    ensures
        extends(strings_after(pkgs, s), strings_after(pkgs.take(k), s)),
    decreases pkgs.len(),
{
    if k < pkgs.len() {
        lemma_strings_after_extends(pkgs.drop_last(), s, k);
        assert(pkgs.drop_last().take(k) =~= pkgs.take(k));
        lemma_builder_extends(pkgs.last(), strings_after(pkgs.drop_last(), s));
    } else {
        assert(pkgs.take(k) =~= pkgs);
    }
}

/// Whether `members` lists `id`.
pub(crate) fn lists_id(members: &Vec<String>, id: &String) -> (r: bool)
    ensures
        r == id_listed(members@, id@),
{
    let mut i: usize = 0;
    while i < members.len()
        invariant
            0 <= i <= members@.len(),
            forall|j: int| 0 <= j < i ==> members@[j]@ != id@,
        decreases members@.len() - i,
    {
        if members[i] == *id {
            return true;
        }
        i = i + 1;
    }
    false
}

proof fn lemma_results(
    results: Seq<Result<PackageBuilder, PackageError>>,
    ms: Seq<PackageManifest>,
    wr: Seq<Reference>,
    wi: Seq<Reference>,
)
    requires
        results.len() == ms.len(),
        forall|j: int|
            0 <= j < results.len() ==> ((#[trigger] results[j]) is Err <==> builder_fails(
                ms[j],
                wr,
                wi,
            )) && (results[j] matches Err(e) ==> e.package_id@ == ms[j].id@),
    ensures
        err_values(results).map_values(|e: PackageError| e.package_id@) == failing_ids(ms, wr, wi),
        failing_ids(ms, wr, wi).len() == 0 ==> ok_values(results).len() == results.len() && forall|
            j: int,
        |
            0 <= j < results.len() ==> ((#[trigger] results[j]) matches Ok(b) && b == ok_values(
                results,
            )[j]),
    decreases results.len(),
{
    if results.len() > 0 {
        let init = results.drop_last();
        let mi = ms.drop_last();
        assert forall|j: int| 0 <= j < init.len() implies ((#[trigger] init[j]) is Err
            <==> builder_fails(mi[j], wr, wi)) && (init[j] matches Err(e) ==> e.package_id@
            == mi[j].id@) by {
            assert(init[j] == results[j]);
            assert(mi[j] == ms[j]);
        }
        lemma_results(init, mi, wr, wi);
        let last = results.last();
        assert(last == results[results.len() - 1]);
        match last {
            Ok(b) => {
                assert(err_values(results).map_values(|e: PackageError| e.package_id@)
                    =~= err_values(init).map_values(|e: PackageError| e.package_id@));
                if failing_ids(ms, wr, wi).len() == 0 {
                    assert forall|j: int| 0 <= j < results.len() implies ((
                    #[trigger] results[j]) matches Ok(b) && b == ok_values(results)[j]) by {
                        if j < init.len() {
                            assert(init[j] == results[j]);
                        }
                    }
                }
            },
            Err(e) => {
                assert(err_values(results).map_values(|e: PackageError| e.package_id@)
                    =~= err_values(init).map_values(|e: PackageError| e.package_id@).push(
                    e.package_id@,
                ));
            },
        }
    }
}

/// The packages whose ids `members` lists, in order.
fn member_packages(packages: Vec<PackageManifest>, members: &Vec<String>) -> (ms: Vec<
    PackageManifest,
>)
    ensures
        ms@ == member_manifests(packages@, members@),
{
    let mut ms: Vec<PackageManifest> = Vec::new();
    let ghost all = packages@;
    for package in it: packages.into_iter()
        invariant
            it.seq() == all,
            ms@ == member_manifests(all.take(it.index() as int), members@),
    {
        proof {
            assert(all.take(it.index() as int + 1).drop_last() =~= all.take(it.index() as int));
        }
        if lists_id(members, &package.id) {
            ms.push(package);
        }
    }
    proof {
        assert(all.take(all.len() as int) =~= all);
    }
    ms
}

/// Builds the feature set of each package of `ms`, in order.
#[verifier::rlimit(100)]
#[verifier::spinoff_prover]
fn build_members(
    ms: &Vec<PackageManifest>,
    strings: &mut Rodeo<MiniSpur>,
    workspace_metadata: &FeaturexMetadata,
    Ghost(wr): Ghost<Seq<Reference>>,
    Ghost(wi): Ghost<Seq<Reference>>,
) -> (results: Vec<Result<PackageBuilder, PackageError>>)
    requires
        interner_wf(interned(*old(strings))),
        packages_fit(ms@, wr, wi, interned(*old(strings))),
        forall|i: int|
            0 <= i < workspace_metadata.required@.len() ==> ((
            #[trigger] workspace_metadata.required@[i]).key() as int) < interned(*old(strings)).len(),
        forall|i: int|
            0 <= i < workspace_metadata.ignored@.len() ==> ((
            #[trigger] workspace_metadata.ignored@[i]).key() as int) < interned(*old(strings)).len(),
        references(workspace_metadata.required@, interned(*old(strings))) == wr,
        references(workspace_metadata.ignored@, interned(*old(strings))) == wi,
    ensures
        interned(*final(strings)) == strings_after(ms@, interned(*old(strings))),
        interner_wf(interned(*final(strings))),
        results@.len() == ms@.len(),
        forall|j: int|
            0 <= j < ms@.len() ==> ((#[trigger] results@[j]) is Err <==> builder_fails(
                ms@[j],
                wr,
                wi,
            )) && (results@[j] matches Err(e) ==> e.package_id@ == ms@[j].id@) && (
            results@[j] matches Ok(b) ==> builder_ready(
                b,
                ms@[j],
                wr,
                wi,
                strings_after(ms@.take(j + 1), interned(*old(strings))),
            )),
{
    let ghost s_ws = interned(*strings);
    let ghost msq = ms@;
    let mut results: Vec<Result<PackageBuilder, PackageError>> = Vec::new();
    let mut k: usize = 0;
    while k < ms.len()
        invariant
            msq == ms@,
            s_ws == interned(*old(strings)),
            packages_fit(msq, wr, wi, s_ws),
            0 <= k <= msq.len(),
            interned(*strings) == strings_after(msq.take(k as int), s_ws),
            interner_wf(interned(*strings)),
            extends(interned(*strings), s_ws),
            forall|i: int|
                0 <= i < workspace_metadata.required@.len() ==> ((
                #[trigger] workspace_metadata.required@[i]).key() as int) < s_ws.len(),
            forall|i: int|
                0 <= i < workspace_metadata.ignored@.len() ==> ((
                #[trigger] workspace_metadata.ignored@[i]).key() as int) < s_ws.len(),
            references(workspace_metadata.required@, s_ws) == wr,
            references(workspace_metadata.ignored@, s_ws) == wi,
            results@.len() == k,
            forall|j: int|
                0 <= j < k ==> ((#[trigger] results@[j]) is Err <==> builder_fails(msq[j], wr, wi))
                    && (results@[j] matches Err(e) ==> e.package_id@ == msq[j].id@) && (
                results@[j] matches Ok(b) ==> builder_ready(
                    b,
                    msq[j],
                    wr,
                    wi,
                    strings_after(msq.take(j + 1), s_ws),
                )),
        decreases msq.len() - k,
    {
        let ghost sk = interned(*strings);
        proof {
            lemma_references_extend(workspace_metadata.required@, s_ws, sk);
            lemma_references_extend(workspace_metadata.ignored@, s_ws, sk);
            assert(msq.take(k as int) =~= msq.take(k as int + 1).drop_last());
            assert(msq.take(k as int + 1).last() == msq[k as int]);
            assert(declared_names(msq[k as int].features@).no_duplicates());
        }
        let built = Package::builder(strings, &ms[k], workspace_metadata);
        proof {
            lemma_builder_extends(msq[k as int], sk);
        }
        results.push(built);
        k = k + 1;
    }
    proof {
        assert(msq.take(msq.len() as int) =~= msq);
    }
    results
}

/// The strings of a shared read-only interner.
spec fn shared_strings(reader: &Rc<RodeoReader<MiniSpur>>) -> Seq<Seq<char>> {
    reader_strings(**reader)
}

/// Ties each built package to the read-only interner.
fn tie_packages(
    builders: Vec<PackageBuilder>,
    reader: &Rc<RodeoReader<MiniSpur>>,
    Ghost(msq): Ghost<Seq<PackageManifest>>,
    Ghost(wr): Ghost<Seq<Reference>>,
    Ghost(wi): Ghost<Seq<Reference>>,
    Ghost(s_ws): Ghost<Seq<Seq<char>>>,
) -> (built: Vec<Package>)
    requires
        builders@.len() == msq.len(),
        reader_strings(**reader) == strings_after(msq, s_ws),
        interner_wf(reader_strings(**reader)),
        forall|j: int|
            0 <= j < builders@.len() ==> builder_ready(
                #[trigger] builders@[j],
                msq[j],
                wr,
                wi,
                strings_after(msq.take(j + 1), s_ws),
            ),
    ensures
        built@.len() == msq.len(),
        forall|j: int| 0 <= j < msq.len() ==> package_built_from(#[trigger] built@[j], msq[j], wr, wi),
{
    let ghost s_final = shared_strings(reader);
    let mut built: Vec<Package> = Vec::new();
    let ghost bs = builders@;
    for b in it: builders.into_iter()
        invariant
            it.seq() == bs,
            bs.len() == msq.len(),
            reader_strings(**reader) == s_final,
            s_final == strings_after(msq, s_ws),
            interner_wf(s_final),
            forall|j: int|
                0 <= j < bs.len() ==> builder_ready(
                    #[trigger] bs[j],
                    msq[j],
                    wr,
                    wi,
                    strings_after(msq.take(j + 1), s_ws),
                ),
            built@.len() == it.index(),
            forall|j: int|
                0 <= j < it.index() ==> package_built_from(#[trigger] built@[j], msq[j], wr, wi),
    {
        let ghost j = it.index() as int;
        proof {
            lemma_strings_after_extends(msq, s_ws, j + 1);
            let order = placement(declared_entries(msq[j].features@), Seq::empty())->0;
            lemma_builder_under(b.features, order, strings_after(msq.take(j + 1), s_ws), s_final);
        }
        let p = b.build(share(reader));
        built.push(p);
    }
    built
}

/// The position of the first package with id `id`, which `requires` says there is.
fn root_position(built: &Vec<Package>, id: &String, Ghost(msq): Ghost<Seq<PackageManifest>>) -> (r:
    usize)
    requires
        built@.len() == msq.len(),
        forall|q: int| 0 <= q < built@.len() ==> (#[trigger] built@[q]).id@ == msq[q].id@,
        id_position(msq, id@) < msq.len(),
    ensures
        r == id_position(msq, id@),
{
    proof {
        lemma_id_position(msq, id@);
    }
    let n = built.len();
    let mut i: usize = 0;
    while built[i].id != *id
        invariant
            n == built@.len(),
            built@.len() == msq.len(),
            0 <= i <= id_position(msq, id@),
            forall|q: int| 0 <= q < built@.len() ==> (#[trigger] built@[q]).id@ == msq[q].id@,
            id_position(msq, id@) < msq.len(),
            msq[id_position(msq, id@)].id@ == id@,
            forall|q: int| 0 <= q < id_position(msq, id@) ==> (#[trigger] msq[q]).id@ != id@,
        decreases id_position(msq, id@) - i,
    {
        i = i + 1;
    }
    i
}

/// What assembling the workspace gives: the error of malformed workspace
/// metadata; otherwise every member package that cannot be built, by id, or the
/// workspace of all members, with the root package found by its id.
pub open spec fn workspace_outcome(
    packages: Seq<PackageManifest>,
    members: Seq<String>,
    root_id: Option<String>,
    featurex: Result<Option<FeaturexSection>, FeaturexMetadataError>,
    r: Result<Workspace, GetWorkspaceError>,
) -> bool {
    match featurex {
        Err(_) => r matches Err(e) && e.cause is Metadata,
        Ok(sec) => {
            let ms = member_manifests(packages, members);
            let wr = section_required(sec);
            let wi = section_ignored(sec);
            let fails = failing_ids(ms, wr, wi);
            &&& fails.len() > 0 ==> (r matches Err(e) && e.cause matches WorkspaceFailure::Packages(
                errs,
            ) && errs@.map_values(|e: PackageError| e.package_id@) == fails)
            &&& fails.len() == 0 ==> (r matches Ok(w) && w.package_list().len() == ms.len()
                && (forall|k: int|
                0 <= k < ms.len() ==> package_built_from(
                    #[trigger] w.package_list()[k],
                    ms[k],
                    wr,
                    wi,
                )) && (root_id is None ==> w.root_index() is None) && (root_id matches Some(
                id,
            ) ==> w.root_index() == Some(id_position(ms, id@) as usize)))
        },
    }
}

/// Assembles the workspace from the packages that `cargo metadata` lists: the
/// workspace's `featurex` metadata is read first, then the feature set of each
/// member package is built, in order; every package whose feature set cannot be
/// made is reported. The root package, if there is one, is found by its id.
#[verifier::rlimit(60)]
pub fn workspace_from_metadata(
    packages: Vec<PackageManifest>,
    members: Vec<String>,
    root_id: Option<String>,
    featurex: Result<Option<FeaturexSection>, FeaturexMetadataError>,
) -> (r: Result<Workspace, GetWorkspaceError>)
    requires
        workspace_fits(packages@, members@, root_id, featurex),
    ensures
        workspace_outcome(packages@, members@, root_id, featurex, r),
{
    let mut strings = new_interner();
    let section = match featurex {
        Err(_) => {
            return Err(GetWorkspaceError { cause: WorkspaceFailure::Metadata(FeaturexMetadataError) });
        },
        Ok(section) => section,
    };
    let workspace_metadata = FeaturexMetadata::from_featurex_metadata(&section, &mut strings);
    let ghost sec = section;
    let ghost s_ws = interned(strings);
    let ghost wr = section_required(sec);
    let ghost wi = section_ignored(sec);
    proof {
        match sec {
            None => {
                assert(references(workspace_metadata.required@, s_ws) =~= wr);
                assert(references(workspace_metadata.ignored@, s_ws) =~= wi);
            },
            Some(m) => {
                lemma_parsed_references(workspace_metadata.required@, m.required@, s_ws);
                lemma_parsed_references(workspace_metadata.ignored@, m.ignored@, s_ws);
            },
        }
    }
    let ms = member_packages(packages, &members);
    let results = build_members(&ms, &mut strings, &workspace_metadata, Ghost(wr), Ghost(wi));
    proof {
        lemma_results(results@, ms@, wr, wi);
    }
    let builders = match collect_results(results).into_result() {
        Ok(builders) => builders,
        Err(errors) => {
            return Err(GetWorkspaceError { cause: WorkspaceFailure::Packages(errors) });
        },
    };
    proof {
        assert(err_values(results@).len() == 0);
        assert(failing_ids(ms@, wr, wi).len() == 0);
        assert forall|j: int| 0 <= j < builders@.len() implies builder_ready(
            #[trigger] builders@[j],
            ms@[j],
            wr,
            wi,
            strings_after(ms@.take(j + 1), s_ws),
        ) by {
            assert(results@[j] matches Ok(b) && b == ok_values(results@)[j]);
        }
    }
    let reader = Rc::new(into_reader(strings));
    let built = tie_packages(builders, &reader, Ghost(ms@), Ghost(wr), Ghost(wi), Ghost(s_ws));
    let root = match root_id {
        None => None,
        Some(id) => Some(root_position(&built, &id, Ghost(ms@))),
    };
    Ok(Workspace { _strings: reader, packages: built, root })
}

/// Assembles the workspace as [`workspace_from_metadata`] does when the input
/// stays within what the interner and the bit sets can take, and gives `None`
/// without assembling anything when it does not.
pub fn workspace_within_limits(
    packages: Vec<PackageManifest>,
    members: Vec<String>,
    root_id: Option<String>,
    featurex: Result<Option<FeaturexSection>, FeaturexMetadataError>,
) -> (r: Option<Result<Workspace, GetWorkspaceError>>)
    ensures
        r is None <==> !workspace_fits(packages@, members@, root_id, featurex),
        r matches Some(res) ==> workspace_outcome(packages@, members@, root_id, featurex, res),
{
    if fits_limits(&packages, &members, &root_id, &featurex) {
        Some(workspace_from_metadata(packages, members, root_id, featurex))
    } else {
        None
    }
}

/// The builder `b` holds the features of `m`, built under the interner `s`.
spec fn builder_ready(
    b: PackageBuilder,
    m: PackageManifest,
    wr: Seq<Reference>,
    wi: Seq<Reference>,
    s: Seq<Seq<char>>,
) -> bool {
    let order = placement(declared_entries(m.features@), Seq::empty())->0;
    let fnames = names_of(order);
    &&& b.name@ == m.name@
    &&& b.version@ == m.version@
    &&& b.id@ == m.id@
    &&& b.manifest_path@ == m.manifest_path@
    &&& b.features.built_as(order, s)
    &&& b.features.valid_in(s)
    &&& interner_wf(s)
    &&& b.features.required_set() == metadata_set(section_required(m.featurex->Ok_0), wr, fnames)
    &&& b.features.ignored_set() == metadata_set(section_ignored(m.featurex->Ok_0), wi, fnames)
}

} // verus!
