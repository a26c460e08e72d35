//! The features of a package, numbered in dependency order, and the
//! combinations of them worth building.
pub mod bits;
pub mod bitset;
pub mod order;

use crate::collect_result::{collect_results, err_values, ok_values};
use crate::interner::{
    interned, interner_wf, intern_spec, lookup, new_interner, resolve, resolve_interned, intern,
    reader_strings, KEY_SPACE,
};
use crate::metadata::{
    bare_name, intern_all, intern_section, is_optional, section_fits, FeatureName,
    FeaturexMetadata, FeaturexSection,
};
use crate::PackageManifest;
use crate::powerset::{next_subset, pending, powerset_list, powerset_of};
use bits::{index_set, BitSet, WIDTH};
use itertools::Powerset;
use lasso::{MiniSpur, Rodeo, RodeoReader};
use order::{
    closure_sets, dep_positions, names_of, own_bit, placement, union_at, word_positions, Entry,
};
use std::rc::Rc;
use std::vec::IntoIter;
use vstd::prelude::*;

verus! {

/// A numbered feature of a package.
#[derive(Clone, Copy)]
pub struct FeatureInfo {
    /// The key of its interned name.
    pub name: usize,
    /// Its number: its position among the package's features.
    pub index: u32,
    /// The numbers of the features it names as dependencies.
    pub _direct_deps: BitSet,
    /// The union of the `transitive_deps` of its dependencies.
    pub transitive_deps: BitSet,
    /// Itself and every feature it enables, directly or not.
    pub set: BitSet,
}

/// The first position of a feature whose name has key `k`, or the length when
/// there is none.
pub open spec fn key_position(feats: Seq<FeatureInfo>, k: usize) -> int
    decreases feats.len(),
{
    if feats.len() == 0 {
        0
    } else if feats[0].name == k {
        0
    } else {
        1 + key_position(feats.drop_first(), k)
    }
}

proof fn lemma_key_position(feats: Seq<FeatureInfo>, k: usize)
    ensures
        0 <= key_position(feats, k) <= feats.len(),
        key_position(feats, k) < feats.len() ==> feats[key_position(feats, k)].name == k,
        forall|q: int| 0 <= q < key_position(feats, k) ==> (#[trigger] feats[q]).name != k,
    decreases feats.len(),
{
    if feats.len() > 0 && feats[0].name != k {
        lemma_key_position(feats.drop_first(), k);
        assert forall|q: int| 0 <= q < key_position(feats, k) implies (#[trigger] feats[q]).name
            != k by {
            if q > 0 {
                assert(feats[q] == feats.drop_first()[q - 1]);
            }
        }
    }
}

/// The position of the feature with key `k`, if some feature has it.
pub fn find_key(features: &[FeatureInfo], k: usize) -> (r: Option<usize>)
    ensures
        r is None ==> key_position(features@, k) == features@.len(),
        r matches Some(i) ==> i == key_position(features@, k) && i < features@.len(),
{
    proof {
        lemma_key_position(features@, k);
    }
    let mut i: usize = 0;
    while i < features.len()
        invariant
            0 <= i <= features@.len(),
            forall|q: int| 0 <= q < i ==> (#[trigger] features@[q]).name != k,
            0 <= key_position(features@, k) <= features@.len(),
            key_position(features@, k) < features@.len() ==> features@[key_position(
                features@,
                k,
            )].name == k,
            forall|q: int| 0 <= q < key_position(features@, k) ==> (#[trigger] features@[q]).name
                != k,
        decreases features.len() - i,
    {
        if features[i].name == k {
            return Some(i);
        }
        i = i + 1;
    }
    None
}

/// A feature that the metadata requires is not one of the package's features.
#[derive(Debug)]
pub struct FeatureReferenceError {
    pub name: String,
}

/// Which metadata lists named missing features.
#[derive(Debug)]
pub enum CreateMetadataBitSetError {
    /// The package's own metadata did, with these features.
    Package(Vec<FeatureReferenceError>),
    /// The workspace's metadata did, with these features.
    Workspace(Vec<FeatureReferenceError>),
    /// Both did: the package's missing features, then the workspace's.
    Both(Vec<FeatureReferenceError>, Vec<FeatureReferenceError>),
}

/// The metadata list `name` (`required` or `ignored`) named missing features.
#[derive(Debug)]
pub struct MetadataBitSetError {
    pub name: String,
    pub cause: CreateMetadataBitSetError,
}

/// Why a package's feature set could not be made.
#[derive(Debug)]
pub enum FeatureSetFailure {
    /// The features depend on each other in a cycle.
    DependencyCycle,
    /// The package's `featurex` metadata could not be read.
    Metadata(crate::metadata::FeaturexMetadataError),
    /// A metadata list named missing features.
    MetadataBitSet(MetadataBitSetError),
}

/// A package's feature set could not be made.
#[derive(Debug)]
pub struct FeatureSetError {
    pub cause: FeatureSetFailure,
}

/// A metadata reference to a feature, by name: whether it is optional, and the
/// name.
pub type Reference = (bool, Seq<char>);

/// The references of parsed metadata names under the interner `strs`.
pub open spec fn references(names: Seq<FeatureName>, strs: Seq<Seq<char>>) -> Seq<Reference> {
    names.map_values(|n: FeatureName| (n is Optional, strs[n.key() as int]))
}

/// The positions, among `feature_names`, of the referenced features that exist.
pub open spec fn found_positions(refs: Seq<Reference>, feature_names: Seq<Seq<char>>) -> Seq<int>
    decreases refs.len(),
{
    if refs.len() == 0 {
        Seq::empty()
    } else {
        let init = found_positions(refs.drop_last(), feature_names);
        if feature_names.contains(refs.last().1) {
            init.push(feature_names.index_of(refs.last().1))
        } else {
            init
        }
    }
}

/// The names of the required (not optional) references to features that do not
/// exist.
pub open spec fn missing_names(refs: Seq<Reference>, feature_names: Seq<Seq<char>>) -> Seq<
    Seq<char>,
>
    decreases refs.len(),
{
    if refs.len() == 0 {
        Seq::empty()
    } else {
        let init = missing_names(refs.drop_last(), feature_names);
        if !refs.last().0 && !feature_names.contains(refs.last().1) {
            init.push(refs.last().1)
        } else {
            init
        }
    }
}

/// The names carried by a list of reference errors.
pub open spec fn error_names(errors: Seq<FeatureReferenceError>) -> Seq<Seq<char>> {
    errors.map_values(|e: FeatureReferenceError| e.name@)
}

/// The positions of `positions` as a set, as far as they fit in a word.
pub open spec fn position_set(positions: Seq<int>) -> Set<nat> {
    word_positions(positions)
}

/// A list of references that names no missing feature may only name features
/// that fit in a word.
pub open spec fn list_fits(refs: Seq<Reference>, feature_names: Seq<Seq<char>>) -> bool {
    missing_names(refs, feature_names).len() == 0 ==> forall|i: int|
        0 <= i < found_positions(refs, feature_names).len() ==> found_positions(
            refs,
            feature_names,
        )[i] < WIDTH
}

/// The outcome of resolving the references of a package's list and of the
/// workspace's list: the union of the features found, or the missing names.
pub open spec fn bitset_outcome(
    package: Seq<Reference>,
    workspace: Seq<Reference>,
    feature_names: Seq<Seq<char>>,
    r: Result<BitSet, CreateMetadataBitSetError>,
) -> bool {
    let pm = missing_names(package, feature_names);
    let wm = missing_names(workspace, feature_names);
    match r {
        Ok(b) => pm.len() == 0 && wm.len() == 0 && b@ == position_set(
            found_positions(package, feature_names),
        ).union(position_set(found_positions(workspace, feature_names))),
        Err(CreateMetadataBitSetError::Package(e)) => pm.len() > 0 && wm.len() == 0
            && error_names(e@) == pm,
        Err(CreateMetadataBitSetError::Workspace(e)) => pm.len() == 0 && wm.len() > 0
            && error_names(e@) == wm,
        Err(CreateMetadataBitSetError::Both(e1, e2)) => pm.len() > 0 && wm.len() > 0
            && error_names(e1@) == pm && error_names(e2@) == wm,
    }
}

/// The features as the names `strs` gives their keys.
pub open spec fn info_names(feats: Seq<FeatureInfo>, strs: Seq<Seq<char>>) -> Seq<Seq<char>> {
    feats.map_values(|f: FeatureInfo| strs[f.name as int])
}

/// Features numbered by position, with distinct keys that `strs` holds.
pub open spec fn numbered(feats: Seq<FeatureInfo>, strs: Seq<Seq<char>>) -> bool {
    &&& interner_wf(strs)
    &&& feats.len() <= KEY_SPACE
    &&& forall|i: int| 0 <= i < feats.len() ==> (#[trigger] feats[i]).index == i
    &&& forall|i: int| 0 <= i < feats.len() ==> (#[trigger] feats[i]).name < strs.len()
    &&& info_names(feats, strs).no_duplicates()
}

/// Keys of `strs` name the same strings exactly when they are equal.
proof fn lemma_keys_distinct(strs: Seq<Seq<char>>, a: int, b: int)
    requires
        strs.no_duplicates(),
        0 <= a < strs.len(),
        0 <= b < strs.len(),
        strs[a] == strs[b],
    ensures
        a == b,
{
}

/// The position of the feature with key `k` is that of its name.
proof fn lemma_key_position_name(feats: Seq<FeatureInfo>, strs: Seq<Seq<char>>, k: usize)
    requires
        numbered(feats, strs),
        (k as int) < strs.len(),
    ensures
        key_position(feats, k) < feats.len() <==> info_names(feats, strs).contains(strs[k as int]),
        key_position(feats, k) < feats.len() ==> key_position(feats, k) == info_names(
            feats,
            strs,
        ).index_of(strs[k as int]),
{
    lemma_key_position(feats, k);
    let names = info_names(feats, strs);
    let p = key_position(feats, k);
    if names.contains(strs[k as int]) {
        let i = names.index_of(strs[k as int]);
        assert(names[i] == strs[k as int]);
        lemma_keys_distinct(strs, feats[i].name as int, k as int);
        assert(p <= i);
        if p < i {
            assert(names[p] == strs[k as int]);
        }
        assert(names.index_of(strs[k as int]) == i);
    } else if p < feats.len() {
        assert(names[p] == strs[k as int]);
    }
}

/// Finds the feature a metadata name refers to: `None` for an optional name of a
/// missing feature, an error for a required one, and the number of the feature
/// otherwise.
pub fn find_feature(
    features: &[FeatureInfo],
    name: &FeatureName,
    strings: &Rodeo<MiniSpur>,
) -> (r: Option<Result<u32, FeatureReferenceError>>)
    requires
        numbered(features@, interned(*strings)),
        (name.key() as int) < interned(*strings).len(),
    ensures
        ({
            let strs = interned(*strings);
            let names = info_names(features@, strs);
            let n = strs[name.key() as int];
            match r {
                None => *name is Optional && !names.contains(n),
                Some(Ok(i)) => names.contains(n) && i == names.index_of(n),
                Some(Err(e)) => *name is Required && !names.contains(n) && e.name@ == n,
            }
        }),
{
    proof {
        lemma_key_position_name(features@, interned(*strings), name.key());
    }
    match name {
        FeatureName::Optional(n) => match find_key(features, *n) {
            Some(i) => Some(Ok(features[i].index)),
            None => None,
        },
        FeatureName::Required(n) => match find_key(features, *n) {
            Some(i) => Some(Ok(features[i].index)),
            None => {
                let missing = resolve_interned(strings, *n).to_owned();
                Some(Err(FeatureReferenceError { name: missing }))
            },
        },
    }
}

proof fn lemma_index_set(indices: Seq<u32>, positions: Seq<int>)
    requires
        indices.len() == positions.len(),
        forall|j: int| 0 <= j < indices.len() ==> indices[j] as int == positions[j],
    ensures
        index_set(indices) == position_set(positions),
{
    order::lemma_word_positions(positions);
    assert forall|i: nat| index_set(indices).contains(i) <==> position_set(positions).contains(
        i,
    ) by {
        if index_set(indices).contains(i) {
            let j = choose|j: int| 0 <= j < indices.len() && indices[j] == i;
            assert(positions[j] == i as int);
        }
        if position_set(positions).contains(i) {
            let j = choose|j: int| 0 <= j < positions.len() && positions[j] == i as int;
            assert(indices[j] == i);
        }
    }
    assert(index_set(indices) =~= position_set(positions));
}

/// Resolves a list of metadata names: the numbers of the features found, or
/// every required name that is missing.
fn resolve_list(
    features: &[FeatureInfo],
    names: &Vec<FeatureName>,
    strings: &Rodeo<MiniSpur>,
) -> (r: Result<BitSet, Vec<FeatureReferenceError>>)
    requires
        numbered(features@, interned(*strings)),
        forall|i: int| 0 <= i < names@.len() ==> ((#[trigger] names@[i]).key() as int) < interned(
            *strings,
        ).len(),
        list_fits(
            references(names@, interned(*strings)),
            info_names(features@, interned(*strings)),
        ),
    ensures
        ({
            let refs = references(names@, interned(*strings));
            let fnames = info_names(features@, interned(*strings));
            match r {
                Ok(b) => missing_names(refs, fnames).len() == 0 && b@ == position_set(
                    found_positions(refs, fnames),
                ),
                Err(e) => missing_names(refs, fnames).len() > 0 && error_names(e@) == missing_names(
                    refs,
                    fnames,
                ),
            }
        }),
{
    let ghost strs = interned(*strings);
    let ghost refs = references(names@, strs);
    let ghost fnames = info_names(features@, strs);
    let mut results: Vec<Result<u32, FeatureReferenceError>> = Vec::new();
    let mut i: usize = 0;
    while i < names.len()
        invariant
            strs == interned(*strings),
            refs == references(names@, strs),
            fnames == info_names(features@, strs),
            numbered(features@, strs),
            forall|i: int| 0 <= i < names@.len() ==> ((#[trigger] names@[i]).key() as int)
                < strs.len(),
            0 <= i <= names@.len(),
            ok_values(results@).len() == found_positions(refs.take(i as int), fnames).len(),
            forall|j: int|
                0 <= j < ok_values(results@).len() ==> ok_values(results@)[j] as int
                    == found_positions(refs.take(i as int), fnames)[j],
            error_names(err_values(results@)) == missing_names(refs.take(i as int), fnames),
        decreases names@.len() - i,
    {
        let found = find_feature(features, &names[i], strings);
        proof {
            assert(refs.take(i as int + 1).drop_last() =~= refs.take(i as int));
            assert(refs.take(i as int + 1).last() == refs[i as int]);
        }
        match found {
            Some(x) => {
                let ghost before = results@;
                results.push(x);
                proof {
                    assert(results@.drop_last() == before);
                    assert(error_names(err_values(results@)) =~= missing_names(
                        refs.take(i as int + 1),
                        fnames,
                    ));
                }
            },
            None => {},
        }
        i = i + 1;
    }
    proof {
        assert(refs.take(names@.len() as int) =~= refs);
    }
    match collect_results(results).into_result() {
        Ok(indices) => {
            proof {
                assert(err_values(results@).len() == 0);
                assert forall|j: int| 0 <= j < indices@.len() implies indices@[j] < WIDTH by {
                    assert(found_positions(refs, fnames)[j] < WIDTH);
                }
                lemma_index_set(indices@, found_positions(refs, fnames));
            }
            Ok(BitSet::from_indices(indices))
        },
        Err(errors) => Err(errors),
    }
}

/// The features that a package's and a workspace's metadata list name together:
/// all missing required names of both lists are reported.
pub fn get_bitset(
    features: &[FeatureInfo],
    package_names: &Vec<FeatureName>,
    workspace_names: &Vec<FeatureName>,
    strings: &Rodeo<MiniSpur>,
) -> (r: Result<BitSet, CreateMetadataBitSetError>)
    requires
        numbered(features@, interned(*strings)),
        forall|i: int|
            0 <= i < package_names@.len() ==> ((#[trigger] package_names@[i]).key() as int)
                < interned(*strings).len(),
        forall|i: int|
            0 <= i < workspace_names@.len() ==> ((#[trigger] workspace_names@[i]).key() as int)
                < interned(*strings).len(),
        list_fits(
            references(package_names@, interned(*strings)),
            info_names(features@, interned(*strings)),
        ),
        list_fits(
            references(workspace_names@, interned(*strings)),
            info_names(features@, interned(*strings)),
        ),
    ensures
        bitset_outcome(
            references(package_names@, interned(*strings)),
            references(workspace_names@, interned(*strings)),
            info_names(features@, interned(*strings)),
            r,
        ),
{
    let from_package = resolve_list(features, package_names, strings);
    let from_workspace = resolve_list(features, workspace_names, strings);
    match (from_package, from_workspace) {
        (Ok(p), Ok(w)) => Ok(p.union(&w)),
        (Err(e), Ok(_)) => Err(CreateMetadataBitSetError::Package(e)),
        (Ok(_), Err(e)) => Err(CreateMetadataBitSetError::Workspace(e)),
        (Err(e1), Err(e2)) => Err(CreateMetadataBitSetError::Both(e1, e2)),
    }
}

/// The names of a package's features.
pub open spec fn declared_names(features: Seq<(String, Vec<String>)>) -> Seq<Seq<char>> {
    features.map_values(|f: (String, Vec<String>)| f.0@)
}

/// The dependencies among `deps` that are features of the package (`names`);
/// the others (optional dependencies, features of other packages) are dropped.
pub open spec fn known_deps(deps: Seq<Seq<char>>, names: Seq<Seq<char>>) -> Seq<Seq<char>>
    decreases deps.len(),
{
    if deps.len() == 0 {
        Seq::empty()
    } else {
        let init = known_deps(deps.drop_last(), names);
        if names.contains(deps.last()) {
            init.push(deps.last())
        } else {
            init
        }
    }
}

/// The strings of a list of dependencies.
pub open spec fn dep_strings(deps: Vec<String>) -> Seq<Seq<char>> {
    deps@.map_values(|s: String| s@)
}

/// The package's features as the ordering sees them.
pub open spec fn declared_entries(features: Seq<(String, Vec<String>)>) -> Seq<Entry> {
    features.map_values(
        |f: (String, Vec<String>)|
            (f.0@, known_deps(dep_strings(f.1), declared_names(features))),
    )
}

/// A remaining feature, by keys, as the names `strs` gives them.
pub open spec fn entry_view(e: (usize, Vec<usize>), strs: Seq<Seq<char>>) -> Entry {
    (strs[e.0 as int], e.1@.map_values(|d: usize| strs[d as int]))
}

/// The remaining features, by keys, as names.
pub open spec fn entries_view(rem: Seq<(usize, Vec<usize>)>, strs: Seq<Seq<char>>) -> Seq<Entry> {
    rem.map_values(|e: (usize, Vec<usize>)| entry_view(e, strs))
}

/// Every key of the remaining features is held by `strs`.
pub open spec fn entry_keys_valid(rem: Seq<(usize, Vec<usize>)>, strs: Seq<Seq<char>>) -> bool {
    forall|i: int|
        0 <= i < rem.len() ==> (#[trigger] rem[i]).0 < strs.len() && forall|j: int|
            0 <= j < rem[i].1@.len() ==> (#[trigger] rem[i].1@[j]) < strs.len()
}

/// Interns the names of the package's features, in order.
fn intern_names(features: &Vec<(String, Vec<String>)>, strings: &mut Rodeo<MiniSpur>) -> (keys: Vec<
    usize,
>)
    requires
        interner_wf(interned(*old(strings))),
        intern_all(interned(*old(strings)), declared_names(features@)).len() <= KEY_SPACE,
    ensures
        interned(*final(strings)) == intern_all(
            interned(*old(strings)),
            declared_names(features@),
        ),
        interner_wf(interned(*final(strings))),
        keys@.len() == features@.len(),
        forall|i: int|
            0 <= i < keys@.len() ==> keys@[i] < interned(*final(strings)).len() && interned(
                *final(strings),
            )[#[trigger] keys@[i] as int] == features@[i].0@,
{
    let ghost start = interned(*strings);
    let ghost names = declared_names(features@);
    let mut keys: Vec<usize> = Vec::new();
    let mut i: usize = 0;
    while i < features.len()
        invariant
            0 <= i <= features@.len(),
            names == declared_names(features@),
            interned(*strings) == intern_all(start, names.take(i as int)),
            interner_wf(interned(*strings)),
            intern_all(start, names).len() <= KEY_SPACE,
            keys@.len() == i,
            forall|j: int|
                0 <= j < i ==> keys@[j] < interned(*strings).len() && interned(
                    *strings,
                )[#[trigger] keys@[j] as int] == features@[j].0@,
        decreases features@.len() - i,
    {
        proof {
            crate::metadata::lemma_intern_all_step(start, names, i as int);
            let rest = names.skip(i as int + 1);
            assert(names =~= names.take(i as int + 1) + rest);
            crate::metadata::lemma_intern_all_split(start, names.take(i as int + 1), rest);
            crate::metadata::lemma_intern_all_grows(intern_all(start, names.take(i as int + 1)), rest);
        }
        let ghost before = interned(*strings);
        let key = intern(strings, features[i].0.as_str());
        proof {
            assert(names[i as int] == features@[i as int].0@);
            assert forall|j: int| 0 <= j < i implies keys@[j] < interned(*strings).len()
                && interned(*strings)[#[trigger] keys@[j] as int] == features@[j].0@ by {
                assert(before[keys@[j] as int] == features@[j].0@);
            }
        }
        keys.push(key);
        i = i + 1;
    }
    proof {
        assert(names.take(features@.len() as int) =~= names);
    }
    keys
}

/// Whether `keys` holds `k`.
fn holds_key(keys: &Vec<usize>, k: usize) -> (r: bool)
    ensures
        r == keys@.contains(k),
{
    let mut i: usize = 0;
    while i < keys.len()
        invariant
            0 <= i <= keys@.len(),
            forall|j: int| 0 <= j < i ==> keys@[j] != k,
        decreases keys@.len() - i,
    {
        if keys[i] == k {
            return true;
        }
        i = i + 1;
    }
    false
}

/// The keys of the declared dependencies that are features of the package.
fn known_dep_keys(
    deps: &Vec<String>,
    keys: &Vec<usize>,
    ghost_names: Ghost<Seq<Seq<char>>>,
    strings: &Rodeo<MiniSpur>,
) -> (r: Vec<usize>)
    requires
        interner_wf(interned(*strings)),
        keys@.len() == ghost_names@.len(),
        forall|i: int|
            0 <= i < keys@.len() ==> keys@[i] < interned(*strings).len() && interned(
                *strings,
            )[#[trigger] keys@[i] as int] == ghost_names@[i],
    ensures
        r@.map_values(|d: usize| interned(*strings)[d as int]) == known_deps(
            dep_strings(*deps),
            ghost_names@,
        ),
        forall|j: int| 0 <= j < r@.len() ==> (#[trigger] r@[j]) < interned(*strings).len(),
{
    let ghost strs = interned(*strings);
    let ghost names = ghost_names@;
    let ghost ds = dep_strings(*deps);
    let mut r: Vec<usize> = Vec::new();
    let mut i: usize = 0;
    while i < deps.len()
        invariant
            strs == interned(*strings),
            names == ghost_names@,
            ds == dep_strings(*deps),
            interner_wf(strs),
            keys@.len() == names.len(),
            forall|i: int|
                0 <= i < keys@.len() ==> keys@[i] < strs.len() && strs[#[trigger] keys@[i] as int]
                    == names[i],
            0 <= i <= deps@.len(),
            r@.map_values(|d: usize| strs[d as int]) == known_deps(ds.take(i as int), names),
            forall|j: int| 0 <= j < r@.len() ==> (#[trigger] r@[j]) < strs.len(),
        decreases deps@.len() - i,
    {
        proof {
            assert(ds.take(i as int + 1).drop_last() =~= ds.take(i as int));
            assert(ds.take(i as int + 1).last() == deps@[i as int]@);
        }
        let ghost before = r@;
        match lookup(strings, deps[i].as_str()) {
            Some(k) => {
                if holds_key(keys, k) {
                    r.push(k);
                    proof {
                        let j = choose|j: int| 0 <= j < keys@.len() && keys@[j] == k;
                        assert(names[j] == strs[k as int]);
                        assert(names.contains(deps@[i as int]@));
                        assert(r@.map_values(|d: usize| strs[d as int]) =~= before.map_values(
                            |d: usize| strs[d as int],
                        ).push(strs[k as int]));
                    }
                } else {
                    proof {
                        if names.contains(deps@[i as int]@) {
                            let j = choose|j: int| 0 <= j < names.len() && names[j] == deps@[i as int]@;
                            lemma_keys_distinct(strs, keys@[j] as int, k as int);
                            assert(keys@.contains(k));
                        }
                    }
                }
            },
            None => {
                proof {
                    if names.contains(deps@[i as int]@) {
                        let j = choose|j: int| 0 <= j < names.len() && names[j] == deps@[i as int]@;
                        assert(strs[keys@[j] as int] == deps@[i as int]@);
                    }
                }
            },
        }
        i = i + 1;
    }
    proof {
        assert(ds.take(deps@.len() as int) =~= ds);
    }
    r
}

/// The package's features by keys, with the keys of their known dependencies.
fn collect_entries(
    features: &Vec<(String, Vec<String>)>,
    keys: &Vec<usize>,
    strings: &Rodeo<MiniSpur>,
) -> (r: Vec<(usize, Vec<usize>)>)
    requires
        interner_wf(interned(*strings)),
        keys@.len() == features@.len(),
        forall|i: int|
            0 <= i < keys@.len() ==> keys@[i] < interned(*strings).len() && interned(
                *strings,
            )[#[trigger] keys@[i] as int] == features@[i].0@,
    ensures
        entries_view(r@, interned(*strings)) == declared_entries(features@),
        entry_keys_valid(r@, interned(*strings)),
{
    let ghost strs = interned(*strings);
    let ghost names = declared_names(features@);
    let mut r: Vec<(usize, Vec<usize>)> = Vec::new();
    let mut i: usize = 0;
    while i < features.len()
        invariant
            strs == interned(*strings),
            names == declared_names(features@),
            interner_wf(strs),
            keys@.len() == features@.len(),
            forall|i: int|
                0 <= i < keys@.len() ==> keys@[i] < strs.len() && strs[#[trigger] keys@[i] as int]
                    == features@[i].0@,
            0 <= i <= features@.len(),
            r@.len() == i,
            forall|j: int|
                0 <= j < i ==> entry_view(#[trigger] r@[j], strs) == declared_entries(features@)[j],
            entry_keys_valid(r@, strs),
        decreases features@.len() - i,
    {
        let deps = known_dep_keys(&features[i].1, keys, Ghost(names), strings);
        let ghost before = r@;
        r.push((keys[i], deps));
        proof {
            assert(names[i as int] == features@[i as int].0@);
            assert forall|j: int| 0 <= j <= i implies entry_view(#[trigger] r@[j], strs)
                == declared_entries(features@)[j] by {
                if j < i {
                    assert(r@[j] == before[j]);
                }
            }
        }
        i = i + 1;
    }
    proof {
        assert(entries_view(r@, strs) =~= declared_entries(features@));
    }
    r
}

/// Every key of `deps` is that of a placed feature.
pub open spec fn deps_placed(deps: Seq<usize>, feats: Seq<FeatureInfo>) -> bool {
    forall|j: int| 0 <= j < deps.len() ==> key_position(feats, #[trigger] deps[j]) < feats.len()
}

/// Whether every key of `deps` is that of a feature.
fn all_placed(deps: &Vec<usize>, features: &Vec<FeatureInfo>) -> (r: bool)
    ensures
        r == deps_placed(deps@, features@),
{
    let mut j: usize = 0;
    while j < deps.len()
        invariant
            0 <= j <= deps@.len(),
            forall|q: int|
                0 <= q < j ==> key_position(features@, #[trigger] deps@[q]) < features@.len(),
        decreases deps@.len() - j,
    {
        if find_key(features.as_slice(), deps[j]).is_none() {
            return false;
        }
        j = j + 1;
    }
    true
}

/// Whether the keys `deps` are all of placed features is whether their names
/// are all placed.
proof fn lemma_placed_by_name(
    deps: Seq<usize>,
    feats: Seq<FeatureInfo>,
    strs: Seq<Seq<char>>,
    e: Entry,
)
    requires
        numbered(feats, strs),
        e.1 == deps.map_values(|d: usize| strs[d as int]),
        forall|j: int| 0 <= j < deps.len() ==> (#[trigger] deps[j]) < strs.len(),
    ensures
        deps_placed(deps, feats) <==> order::ready(e, info_names(feats, strs)),
{
    assert forall|j: int| 0 <= j < deps.len() implies (key_position(feats, deps[j]) < feats.len()
        <==> info_names(feats, strs).contains(#[trigger] e.1[j])) by {
        lemma_key_position_name(feats, strs, deps[j]);
    }
    if deps_placed(deps, feats) {
        assert forall|j: int| 0 <= j < e.1.len() implies info_names(feats, strs).contains(
            #[trigger] e.1[j],
        ) by {
            assert(key_position(feats, deps[j]) < feats.len());
        }
    }
    if order::ready(e, info_names(feats, strs)) {
        assert forall|j: int| 0 <= j < deps.len() implies key_position(feats, #[trigger] deps[j])
            < feats.len() by {
            assert(info_names(feats, strs).contains(e.1[j]));
        }
    }
}

/// The position of the first remaining feature whose dependencies are all
/// placed, if there is one.
fn find_ready(remaining: &Vec<(usize, Vec<usize>)>, features: &Vec<FeatureInfo>) -> (r: Option<
    usize,
>)
    ensures
        r matches Some(p) ==> p < remaining@.len() && deps_placed(
            remaining@[p as int].1@,
            features@,
        ),
        forall|q: int|
            0 <= q < (match r {
                Some(p) => p as int,
                None => remaining@.len() as int,
            }) ==> !deps_placed((#[trigger] remaining@[q]).1@, features@),
{
    let mut p: usize = 0;
    while p < remaining.len()
        invariant
            0 <= p <= remaining@.len(),
            forall|q: int| 0 <= q < p ==> !deps_placed((#[trigger] remaining@[q]).1@, features@),
        decreases remaining@.len() - p,
    {
        if all_placed(&remaining[p].1, features) {
            return Some(p);
        }
        p = p + 1;
    }
    None
}

/// The features placed so far, as `placed` describes them under `strs`: their
/// names, and the sets the ordering gives them.
pub open spec fn placed_as(feats: Seq<FeatureInfo>, placed: Seq<Entry>, strs: Seq<Seq<char>>) -> bool {
    &&& numbered(feats, strs)
    &&& placed.len() == feats.len()
    &&& info_names(feats, strs) == names_of(placed)
    &&& forall|i: int|
        0 <= i < feats.len() ==> (#[trigger] feats[i]).set@ == closure_sets(placed)[i]
            && feats[i].transitive_deps@ == Set::<nat>::empty() && feats[i]._direct_deps@
            == word_positions(dep_positions(placed.take(i), placed[i].1))
}

/// Numbers the feature `name` after the placed ones, with the sets that its
/// dependencies `deps` give it.
fn place(
    features: &Vec<FeatureInfo>,
    name: usize,
    deps: Vec<usize>,
    Ghost(strs): Ghost<Seq<Seq<char>>>,
    Ghost(placed): Ghost<Seq<Entry>>,
) -> (f: FeatureInfo)
    requires
        placed_as(features@, placed, strs),
        features@.len() < KEY_SPACE,
        forall|j: int| 0 <= j < deps@.len() ==> (#[trigger] deps@[j]) < strs.len(),
        deps_placed(deps@, features@),
    ensures
        f.name == name,
        f.index == features@.len(),
        ({
            let ds = deps@.map_values(|d: usize| strs[d as int]);
            let idxs = dep_positions(placed, ds);
            &&& f.set@ == own_bit(features@.len() as int).union(
                union_at(closure_sets(placed), idxs),
            )
            &&& f.transitive_deps@ == Set::<nat>::empty()
            &&& f._direct_deps@ == word_positions(idxs)
        }),
{
    let ghost ds = deps@.map_values(|d: usize| strs[d as int]);
    let ghost sets = closure_sets(placed);
    let index = features.len() as u32;
    let mut direct_deps = BitSet::new();
    let mut transitive_deps = BitSet::new();
    let mut set = transitive_deps;
    set.set(index);
    proof {
        assert(set@ == own_bit(index as int));
    }
    let mut j: usize = 0;
    while j < deps.len()
        invariant
            ds == deps@.map_values(|d: usize| strs[d as int]),
            sets == closure_sets(placed),
            placed_as(features@, placed, strs),
            index == features@.len(),
            forall|j: int| 0 <= j < deps@.len() ==> (#[trigger] deps@[j]) < strs.len(),
            forall|j: int|
                0 <= j < deps@.len() ==> key_position(features@, #[trigger] deps@[j])
                    < features@.len(),
            0 <= j <= deps@.len(),
            direct_deps@ == word_positions(dep_positions(placed, ds.take(j as int))),
            transitive_deps@ == Set::<nat>::empty(),
            set@ == own_bit(index as int).union(
                union_at(sets, dep_positions(placed, ds.take(j as int))),
            ),
        decreases deps@.len() - j,
    {
        let di = find_key(features.as_slice(), deps[j]).unwrap();
        let ghost idxs = dep_positions(placed, ds.take(j as int));
        proof {
            lemma_key_position_name(features@, strs, deps@[j as int]);
            assert(dep_positions(placed, ds.take(j as int + 1)) =~= idxs.push(di as int));
            assert(features@[di as int].index == di);
        }
        direct_deps.set(features[di].index);
        transitive_deps.union_with(&features[di].transitive_deps);
        set.union_with(&features[di].set);
        proof {
            let idxs2 = dep_positions(placed, ds.take(j as int + 1));
            assert(idxs2.drop_last() =~= idxs);
            assert(transitive_deps@ =~= Set::<nat>::empty());
            assert(set@ =~= own_bit(index as int).union(union_at(sets, idxs2)));
        }
        j = j + 1;
    }
    proof {
        assert(ds.take(deps@.len() as int) =~= ds);
    }
    FeatureInfo { name, index, _direct_deps: direct_deps, transitive_deps, set }
}

/// A list of distinct values, all held by `b`, is no longer than `b`.
pub(crate) proof fn lemma_distinct_within<A>(a: Seq<A>, b: Seq<A>)
    requires
        a.no_duplicates(),
        forall|i: int| 0 <= i < a.len() ==> b.contains(#[trigger] a[i]),
    ensures
        a.len() <= b.len(),
{
    a.unique_seq_to_set();
    b.lemma_cardinality_of_set();
    vstd::seq_lib::seq_to_set_is_finite(b);
    assert forall|x: A| a.to_set().contains(x) implies b.to_set().contains(x) by {
        let i = choose|i: int| 0 <= i < a.len() && a[i] == x;
        assert(b.contains(a[i]));
    }
    vstd::set_lib::lemma_len_subset(a.to_set(), b.to_set());
}

/// The positions below `n` that fit in a word.
pub open spec fn below(n: nat) -> Set<nat> {
    Set::new(|j: nat| j < n && j < WIDTH)
}

/// Each feature's set holds no later position, and holds its own position where
/// that fits in a word.
pub open spec fn laid_out(feats: Seq<FeatureInfo>) -> bool {
    &&& forall|i: int, x: nat|
        0 <= i < feats.len() && #[trigger] feats[i].set@.contains(x) ==> x <= i
    &&& forall|i: int|
        0 <= i < feats.len() && i < WIDTH ==> #[trigger] feats[i].set@.contains(i as nat)
}

/// The parts of a feature set agree: the features are numbered and laid out,
/// every set holds positions of features only, and `all` holds every position of
/// a word.
pub open spec fn valid_parts(
    feats: Seq<FeatureInfo>,
    required: Set<nat>,
    ignored: Set<nat>,
    default: Set<nat>,
    all: Set<nat>,
    strs: Seq<Seq<char>>,
) -> bool {
    &&& numbered(feats, strs)
    &&& laid_out(feats)
    &&& forall|i: int| 0 <= i < feats.len() ==> (#[trigger] feats[i]).set@.subset_of(below(feats.len()))
    &&& required.subset_of(below(feats.len()))
    &&& ignored.subset_of(below(feats.len()))
    &&& default.subset_of(below(feats.len()))
    &&& all == below(feats.len())
}

/// The written names of a metadata list as references.
pub open spec fn written_refs(written: Seq<String>) -> Seq<Reference> {
    written.map_values(|w: String| (is_optional(w@), bare_name(w@)))
}

/// The references of the `required` list of a `featurex` section.
pub open spec fn section_required(sec: Option<FeaturexSection>) -> Seq<Reference> {
    match sec {
        None => Seq::empty(),
        Some(m) => written_refs(m.required@),
    }
}

/// The references of the `ignored` list of a `featurex` section.
pub open spec fn section_ignored(sec: Option<FeaturexSection>) -> Seq<Reference> {
    match sec {
        None => Seq::empty(),
        Some(m) => written_refs(m.ignored@),
    }
}

/// The features enabled by default: the set of the feature `default`, or none.
pub open spec fn default_features(order: Seq<Entry>) -> Set<nat> {
    if names_of(order).contains("default"@) {
        closure_sets(order)[names_of(order).index_of("default"@)]
    } else {
        Set::empty()
    }
}

/// Features built from a package's features and metadata, not yet tied to the
/// read-only interner.
pub struct FeatureSetBuilder {
    required: BitSet,
    ignored: BitSet,
    default: BitSet,
    features: Vec<FeatureInfo>,
    all: BitSet,
}

impl FeatureSetBuilder {
    /// The number of features.
    pub closed spec fn len(&self) -> nat {
        self.features@.len()
    }

    /// The names of the features, under the interner `strs`.
    pub closed spec fn names_in(&self, strs: Seq<Seq<char>>) -> Seq<Seq<char>> {
        info_names(self.features@, strs)
    }

    /// The parts agree, under the interner `strs`.
    pub closed spec fn valid_in(&self, strs: Seq<Seq<char>>) -> bool {
        valid_parts(
            self.features@,
            self.required@,
            self.ignored@,
            self.default@,
            self.all@,
            strs,
        )
    }

    /// The features are those of `order`, numbered and with their sets, under the
    /// interner `strs`.
    pub closed spec fn built_as(&self, order: Seq<Entry>, strs: Seq<Seq<char>>) -> bool {
        &&& placed_as(self.features@, order, strs)
        &&& self.all@ == below(order.len())
        &&& self.default@ == default_features(order)
    }

    /// The required features.
    pub closed spec fn required_set(&self) -> Set<nat> {
        self.required@
    }

    /// The ignored features.
    pub closed spec fn ignored_set(&self) -> Set<nat> {
        self.ignored@
    }

    /// The numbered features, with their names' keys and their sets.
    pub closed spec fn infos(&self) -> Seq<FeatureInfo> {
        self.features@
    }

    /// Every position of a word below the number of features.
    pub closed spec fn all_set(&self) -> Set<nat> {
        self.all@
    }
}

/// The features of a package, tied to the read-only interner of their names.
pub struct FeatureSet {
    required: BitSet,
    ignored: BitSet,
    default: BitSet,
    features: Vec<FeatureInfo>,
    all: BitSet,
    strings: Rc<RodeoReader<MiniSpur>>,
}

impl FeatureSet {
    /// The parts agree under the interner the set holds.
    #[verifier::type_invariant]
    spec fn inv(&self) -> bool {
        valid_parts(
            self.features@,
            self.required@,
            self.ignored@,
            self.default@,
            self.all@,
            reader_strings(*self.strings),
        )
    }
}

impl FeatureSet {
    /// The two sets have the same features, the same lists and the same names.
    pub closed spec fn same_as(&self, other: FeatureSet) -> bool {
        &&& self.features@ == other.features@
        &&& self.required == other.required
        &&& self.ignored == other.ignored
        &&& self.default == other.default
        &&& self.all == other.all
        &&& reader_strings(*self.strings) == reader_strings(*other.strings)
    }
}

impl Clone for FeatureSet {
    /// The same features, sharing the interner.
    fn clone(&self) -> (r: Self)
        ensures
            r.same_as(*self),
    {
        proof {
            use_type_invariant(self);
        }
        let features = self.features.clone();
        proof {
            assert(features@ =~= self.features@);
        }
        FeatureSet {
            required: self.required,
            ignored: self.ignored,
            default: self.default,
            features,
            all: self.all,
            strings: crate::interner::share(&self.strings),
        }
    }
}

/// The text that `{:?}` writes for a string: the string in double quotes, with
/// the characters that need it escaped.
pub uninterp spec fn debug_quoted(s: Seq<char>) -> Seq<char>;

/// Formats a string with `<str as Debug>::fmt`; what it writes depends on the
/// string alone.
#[verifier::external_body]
fn quoted(s: &str) -> (r: String)
    ensures
        r@ == debug_quoted(s@),
{
    format!("{:?}", s)
}

/// The quoted names, separated by a comma and a space.
pub open spec fn quoted_list(names: Seq<Seq<char>>) -> Seq<char>
    decreases names.len(),
{
    if names.len() == 0 {
        Seq::empty()
    } else if names.len() == 1 {
        debug_quoted(names[0])
    } else {
        quoted_list(names.drop_last()) + ", "@ + debug_quoted(names.last())
    }
}

/// A feature set as debug output shows it: its feature names in order.
pub open spec fn debug_text(names: Seq<Seq<char>>) -> Seq<char> {
    "FeatureSet { features: ["@ + quoted_list(names) + "], .. }"@
}

impl FeatureSet {
    /// The set as debug output shows it: `FeatureSet { features: [..], .. }`,
    /// with each feature name quoted, in order of position.
    pub fn debug_string(&self) -> (r: String)
        ensures
            r@ == debug_text(self.names()),
    {
        proof {
            use_type_invariant(self);
        }
        let ghost names = self.names();
        let mut out = String::new();
        out.append("FeatureSet { features: [");
        let mut i: usize = 0;
        while i < self.features.len()
            invariant
                i <= self.features@.len(),
                names == self.names(),
                names.len() == self.features@.len(),
                numbered(self.features@, reader_strings(*self.strings)),
                out@ == "FeatureSet { features: ["@ + quoted_list(names.take(i as int)),
            decreases self.features@.len() - i,
        {
            let ghost before = out@;
            if i > 0 {
                out.append(", ");
            }
            let q = quoted(resolve(&self.strings, self.features[i].name));
            out.append(q.as_str());
            proof {
                let t = names.take(i as int + 1);
                assert(t.drop_last() =~= names.take(i as int));
                assert(t.last() == names[i as int]);
                if i == 0 {
                    assert(quoted_list(names.take(0)) =~= Seq::<char>::empty());
                }
                assert(out@ =~= "FeatureSet { features: ["@ + quoted_list(t));
            }
            i = i + 1;
        }
        out.append("], .. }");
        proof {
            assert(names.take(names.len() as int) =~= names);
        }
        out
    }
}

/// What the builder's references name under the interners before (`s0`) and
/// after (`s`): the package's lists as written, the workspace's by key.
pub open spec fn builder_outcome(
    package: PackageManifest,
    workspace: FeaturexMetadata,
    s0: Seq<Seq<char>>,
    s: Seq<Seq<char>>,
    r: Result<FeatureSetBuilder, FeatureSetError>,
) -> bool {
    let s1 = intern_all(s0, declared_names(package.features@));
    match placement(declared_entries(package.features@), Seq::empty()) {
        None => s == s1 && (r matches Err(e) && e.cause is DependencyCycle),
        Some(order) => match package.featurex {
            Err(_) => s == s1 && (r matches Err(e) && e.cause is Metadata),
            Ok(sec) => {
                let fnames = names_of(order);
                let pr = section_required(sec);
                let wr = references(workspace.required@, s0);
                let pi = section_ignored(sec);
                let wi = references(workspace.ignored@, s0);
                &&& s == intern_section(s1, sec)
                &&& if missing_names(pr, fnames).len() > 0 || missing_names(wr, fnames).len() > 0 {
                    r matches Err(e) && e.cause matches FeatureSetFailure::MetadataBitSet(m)
                        && m.name@ == "required"@ && bitset_outcome(pr, wr, fnames, Err(m.cause))
                } else if missing_names(pi, fnames).len() > 0 || missing_names(wi, fnames).len()
                    > 0 {
                    r matches Err(e) && e.cause matches FeatureSetFailure::MetadataBitSet(m)
                        && m.name@ == "ignored"@ && bitset_outcome(pi, wi, fnames, Err(m.cause))
                } else {
                    r matches Ok(b) && b.built_as(order, s) && b.valid_in(s) && b.required_set()
                        == position_set(found_positions(pr, fnames)).union(
                        position_set(found_positions(wr, fnames)),
                    ) && b.ignored_set() == position_set(found_positions(pi, fnames)).union(
                        position_set(found_positions(wi, fnames)),
                    )
                }
            },
        },
    }
}

/// What the builder needs of its input: room in the interner, and metadata lists
/// that name only features of a word (where they name no missing feature). The
/// workspace's lists are given as references.
pub open spec fn builder_fits(
    package: PackageManifest,
    ws_required: Seq<Reference>,
    ws_ignored: Seq<Reference>,
    s0: Seq<Seq<char>>,
) -> bool {
    let s1 = intern_all(s0, declared_names(package.features@));
    &&& s1.len() <= KEY_SPACE
    &&& match placement(declared_entries(package.features@), Seq::empty()) {
        None => true,
        Some(order) => match package.featurex {
            Err(_) => true,
            Ok(sec) => {
                let fnames = names_of(order);
                let pr = section_required(sec);
                &&& section_fits(s1, sec)
                &&& list_fits(pr, fnames)
                &&& list_fits(ws_required, fnames)
                &&& (missing_names(pr, fnames).len() == 0 && missing_names(ws_required, fnames).len()
                    == 0) ==> list_fits(section_ignored(sec), fnames) && list_fits(
                    ws_ignored,
                    fnames,
                )
            },
        },
    }
}

/// The interner after the builder ran on `package` from `s0`.
pub open spec fn builder_strings(package: PackageManifest, s0: Seq<Seq<char>>) -> Seq<Seq<char>> {
    let s1 = intern_all(s0, declared_names(package.features@));
    match placement(declared_entries(package.features@), Seq::empty()) {
        None => s1,
        Some(_) => match package.featurex {
            Err(_) => s1,
            Ok(sec) => intern_section(s1, sec),
        },
    }
}

/// Whether the builder fails on `package`: its dependencies hold a cycle, its
/// metadata is malformed, or a metadata list names a missing feature.
pub open spec fn builder_fails(
    package: PackageManifest,
    ws_required: Seq<Reference>,
    ws_ignored: Seq<Reference>,
) -> bool {
    match placement(declared_entries(package.features@), Seq::empty()) {
        None => true,
        Some(order) => match package.featurex {
            Err(_) => true,
            Ok(sec) => {
                let fnames = names_of(order);
                ||| missing_names(section_required(sec), fnames).len() > 0
                ||| missing_names(ws_required, fnames).len() > 0
                ||| missing_names(section_ignored(sec), fnames).len() > 0
                ||| missing_names(ws_ignored, fnames).len() > 0
            },
        },
    }
}

/// The metadata names of the workspace are keys of the interner `s0`.
pub open spec fn workspace_keys_valid(workspace: FeaturexMetadata, s0: Seq<Seq<char>>) -> bool {
    &&& forall|i: int|
        0 <= i < workspace.required@.len() ==> ((#[trigger] workspace.required@[i]).key() as int)
            < s0.len()
    &&& forall|i: int|
        0 <= i < workspace.ignored@.len() ==> ((#[trigger] workspace.ignored@[i]).key() as int)
            < s0.len()
}

proof fn lemma_known_deps_within(deps: Seq<Seq<char>>, names: Seq<Seq<char>>)
    ensures
        forall|j: int|
            0 <= j < known_deps(deps, names).len() ==> names.contains(
                #[trigger] known_deps(deps, names)[j],
            ),
    decreases deps.len(),
{
    if deps.len() > 0 {
        let init = known_deps(deps.drop_last(), names);
        lemma_known_deps_within(deps.drop_last(), names);
        assert forall|j: int| 0 <= j < known_deps(deps, names).len() implies names.contains(
            #[trigger] known_deps(deps, names)[j],
        ) by {
            if j < init.len() {
                assert(known_deps(deps, names)[j] == init[j]);
            }
        }
    }
}

proof fn lemma_no_dup_prefix<A>(a: Seq<A>, b: Seq<A>)
    requires
        (a + b).no_duplicates(),
    ensures
        a.no_duplicates(),
{
    assert forall|i: int, j: int| 0 <= i < a.len() && 0 <= j < a.len() && i != j implies a[i]
        != a[j] by {
        assert((a + b)[i] == a[i]);
        assert((a + b)[j] == a[j]);
    }
}

/// Interning adds no more strings than it is given.
proof fn lemma_intern_all_at_most(strings: Seq<Seq<char>>, names: Seq<Seq<char>>)
    ensures
        intern_all(strings, names).len() <= strings.len() + names.len(),
    decreases names.len(),
{
    if names.len() > 0 {
        lemma_intern_all_at_most(intern_spec(strings, names[0]), names.drop_first());
    }
}

/// The names of a package's features in the order they are numbered: `None`
/// when the dependencies hold a cycle.
pub fn feature_order(features: &Vec<(String, Vec<String>)>) -> (r: Option<Vec<String>>)
    requires
        declared_names(features@).no_duplicates(),
        features@.len() <= KEY_SPACE,
    ensures
        match placement(declared_entries(features@), Seq::empty()) {
            None => r is None,
            Some(order) => r matches Some(v) && v@.map_values(|n: String| n@) == names_of(order)
                && names_of(order).no_duplicates(),
        },
{
    let mut strings = new_interner();
    proof {
        lemma_intern_all_at_most(Seq::empty(), declared_names(features@));
    }
    match order_features(features, &mut strings) {
        None => None,
        Some(placed) => {
            let infos = placed.0;
            let ghost strs = interned(strings);
            let ghost order = placement(declared_entries(features@), Seq::empty())->0;
            let mut out: Vec<String> = Vec::new();
            let mut i: usize = 0;
            while i < infos.len()
                invariant
                    strs == interned(strings),
                    interner_wf(strs),
                    placed_as(infos@, order, strs),
                    i <= infos@.len(),
                    out@.len() == i,
                    forall|k: int| 0 <= k < i ==> (#[trigger] out@[k])@ == names_of(order)[k],
                decreases infos@.len() - i,
            {
                assert(info_names(infos@, strs)[i as int] == strs[infos@[i as int].name as int]);
                let name = resolve_interned(&strings, infos[i].name).to_owned();
                out.push(name);
                i = i + 1;
            }
            proof {
                assert(out@.map_values(|n: String| n@) =~= names_of(order));
            }
            Some(out)
        },
    }
}

/// Numbers the package's features in dependency order: `None` when the
/// dependencies hold a cycle.
fn order_features(features: &Vec<(String, Vec<String>)>, strings: &mut Rodeo<MiniSpur>) -> (r: Option<
    (Vec<FeatureInfo>, BitSet),
>)
    requires
        interner_wf(interned(*old(strings))),
        declared_names(features@).no_duplicates(),
        intern_all(interned(*old(strings)), declared_names(features@)).len() <= KEY_SPACE,
    ensures
        interned(*final(strings)) == intern_all(
            interned(*old(strings)),
            declared_names(features@),
        ),
        interner_wf(interned(*final(strings))),
        match placement(declared_entries(features@), Seq::empty()) {
            None => r is None,
            Some(order) => r matches Some(p) && placed_as(p.0@, order, interned(*final(strings)))
                && p.1@ == below(order.len()),
        },
{
    let mut all = BitSet::new();
    let mut placed_features: Vec<FeatureInfo> = Vec::new();
    let keys = intern_names(features, strings);
    let mut remaining = collect_entries(features, &keys, strings);
    let ghost strs = interned(*strings);
    let ghost names = declared_names(features@);
    let ghost s1 = intern_all(interned(*old(strings)), names);
    let ghost initial = declared_entries(features@);
    let ghost n = features@.len();
    let ghost mut rem_abs = initial;
    let ghost mut placed: Seq<Entry> = Seq::empty();
    proof {
        assert(names_of(initial) =~= names);
        assert(names_of(placed) + names_of(rem_abs) =~= names);
        assert forall|i: int, j: int|
            0 <= i < rem_abs.len() && 0 <= j < rem_abs[i].1.len() implies (names_of(placed)
            + names_of(rem_abs)).contains(#[trigger] rem_abs[i].1[j]) by {
            lemma_known_deps_within(dep_strings(features@[i].1), names);
        }
        assert forall|i: int| 0 <= i < names.len() implies strs.contains(#[trigger] names[i]) by {
            assert(strs[keys@[i] as int] == names[i]);
        }
        lemma_distinct_within(names, strs);
        assert(all@ =~= below(0));
        assert(info_names(placed_features@, strs) =~= names_of(placed));
    }
    while remaining.len() > 0
        invariant
            strs == interned(*strings),
            strs == s1,
            s1 == intern_all(interned(*old(strings)), declared_names(features@)),
            initial == declared_entries(features@),
            interner_wf(strs),
            rem_abs == entries_view(remaining@, strs),
            entry_keys_valid(remaining@, strs),
            placement(rem_abs, placed) == placement(initial, Seq::<Entry>::empty()),
            order::well_named(rem_abs, placed),
            placed_as(placed_features@, placed, strs),
            placed_features@.len() + remaining@.len() == n,
            n <= KEY_SPACE,
            all@ == below(placed_features@.len()),
        decreases remaining@.len(),
    {
        let found = find_ready(&remaining, &placed_features);
        proof {
            assert forall|q: int| 0 <= q < remaining@.len() implies (deps_placed(
                (#[trigger] remaining@[q]).1@,
                placed_features@,
            ) <==> order::ready(rem_abs[q], names_of(placed))) by {
                lemma_placed_by_name(remaining@[q].1@, placed_features@, strs, rem_abs[q]);
            }
            order::lemma_first_ready(rem_abs, names_of(placed));
        }
        let p = match found {
            Some(p) => p,
            None => {
                proof {
                    let fr = order::first_ready(rem_abs, names_of(placed));
                    if fr < rem_abs.len() {
                        assert(!deps_placed(remaining@[fr as int].1@, placed_features@));
                    }
                    assert(placement(rem_abs, placed) is None);
                }
                return None;
            },
        };
        proof {
            let fr = order::first_ready(rem_abs, names_of(placed));
            if fr < p {
                assert(!deps_placed(remaining@[fr as int].1@, placed_features@));
            }
            if p < fr {
                assert(!order::ready(rem_abs[p as int], names_of(placed)));
            }
            assert(fr == p);
        }
        let ghost rem_before = remaining@;
        let (name, v) = remaining.swap_remove(p);
        let ghost e = rem_abs[p as int];
        proof {
            assert(entries_view(remaining@, strs) =~= order::swap_removed(rem_abs, p as int));
            assert(e == entry_view((name, v), strs));
        }
        let f = place(&placed_features, name, v, Ghost(strs), Ghost(placed));
        all.set(f.index);
        let ghost features_before = placed_features@;
        placed_features.push(f);
        proof {
            let placed2 = placed.push(e);
            order::lemma_well_named_step(rem_abs, placed, p as int);
            order::lemma_names_push(placed, e);
            assert(placed2.drop_last() =~= placed);
            assert(closure_sets(placed2) == closure_sets(placed).push(f.set@));
            order::lemma_closure_prefix(placed2, 0);
            assert(info_names(placed_features@, strs) =~= names_of(placed2));
            lemma_no_dup_prefix(
                names_of(placed2),
                names_of(order::swap_removed(rem_abs, p as int)),
            );
            assert forall|i: int| 0 <= i < placed_features@.len() implies (
            #[trigger] placed_features@[i]).set@ == closure_sets(placed2)[i]
                && placed_features@[i].transitive_deps@ == Set::<nat>::empty()
                && placed_features@[i]._direct_deps@ == word_positions(
                dep_positions(placed2.take(i), placed2[i].1),
            ) by {
                if i < features_before.len() {
                    assert(placed2.take(i) =~= placed.take(i));
                    assert(placed_features@[i] == features_before[i]);
                } else {
                    assert(placed2.take(i) =~= placed);
                }
            }
            assert(all@ =~= below(placed_features@.len()));
            rem_abs = order::swap_removed(rem_abs, p as int);
            placed = placed2;
        }
    }
    proof {
        assert(rem_abs =~= Seq::<Entry>::empty());
    }
    Some((placed_features, all))
}

/// `s2` holds the strings of `s1` under the same keys, and maybe more.
pub open spec fn extends(s2: Seq<Seq<char>>, s1: Seq<Seq<char>>) -> bool {
    &&& s1.len() <= s2.len()
    &&& forall|i: int| 0 <= i < s1.len() ==> s2[i] == s1[i]
}

proof fn lemma_placed_extends(
    feats: Seq<FeatureInfo>,
    order: Seq<Entry>,
    s1: Seq<Seq<char>>,
    s2: Seq<Seq<char>>,
)
    requires
        placed_as(feats, order, s1),
        extends(s2, s1),
        interner_wf(s2),
    ensures
        placed_as(feats, order, s2),
        info_names(feats, s2) == info_names(feats, s1),
{
    assert(info_names(feats, s2) =~= info_names(feats, s1));
}

proof fn lemma_intern_section_extends(s1: Seq<Seq<char>>, sec: Option<FeaturexSection>)
    ensures
        extends(intern_section(s1, sec), s1),
{
    match sec {
        None => {},
        Some(m) => {
            let mid = intern_all(s1, crate::metadata::bare_names(m.required@));
            crate::metadata::lemma_intern_all_grows(s1, crate::metadata::bare_names(m.required@));
            crate::metadata::lemma_intern_all_grows(mid, crate::metadata::bare_names(m.ignored@));
        },
    }
}

/// Parsed names refer to what was written.
pub proof fn lemma_parsed_references(
    parsed: Seq<FeatureName>,
    written: Seq<String>,
    strs: Seq<Seq<char>>,
)
    requires
        crate::metadata::parsed_list(parsed, written, strs),
    ensures
        references(parsed, strs) == written_refs(written),
        forall|i: int| 0 <= i < parsed.len() ==> ((#[trigger] parsed[i]).key() as int) < strs.len(),
{
    assert forall|i: int| 0 <= i < parsed.len() implies references(parsed, strs)[i] == written_refs(
        written,
    )[i] by {
        assert(parsed[i].parsed_from(written[i]@, strs));
    }
    assert(references(parsed, strs) =~= written_refs(written));
    assert forall|i: int| 0 <= i < parsed.len() implies ((#[trigger] parsed[i]).key() as int)
        < strs.len() by {
        assert(parsed[i].parsed_from(written[i]@, strs));
    }
}

/// References by key name the same strings under an extended interner.
pub proof fn lemma_references_extend(names: Seq<FeatureName>, s0: Seq<Seq<char>>, s2: Seq<Seq<char>>)
    requires
        forall|i: int| 0 <= i < names.len() ==> ((#[trigger] names[i]).key() as int) < s0.len(),
        extends(s2, s0),
    ensures
        references(names, s2) == references(names, s0),
        forall|i: int| 0 <= i < names.len() ==> ((#[trigger] names[i]).key() as int) < s2.len(),
{
    assert(references(names, s2) =~= references(names, s0));
}

/// The positions found among `fnames` are positions of `fnames`.
proof fn lemma_found_bounded(refs: Seq<Reference>, fnames: Seq<Seq<char>>)
    ensures
        forall|k: int|
            0 <= k < found_positions(refs, fnames).len() ==> 0 <= #[trigger] found_positions(
                refs,
                fnames,
            )[k] < fnames.len(),
        position_set(found_positions(refs, fnames)).subset_of(below(fnames.len())),
    decreases refs.len(),
{
    if refs.len() > 0 {
        lemma_found_bounded(refs.drop_last(), fnames);
        let init = found_positions(refs.drop_last(), fnames);
        assert forall|k: int| 0 <= k < found_positions(refs, fnames).len() implies 0
            <= #[trigger] found_positions(refs, fnames)[k] < fnames.len() by {
            if k < init.len() {
                assert(found_positions(refs, fnames)[k] == init[k]);
            }
        }
    }
    let f = found_positions(refs, fnames);
    order::lemma_word_positions(f);
    assert forall|x: nat| position_set(f).contains(x) implies below(fnames.len()).contains(x) by {
        let k = choose|k: int| 0 <= k < f.len() && f[k] == x as int;
    }
}

impl FeatureSet {
    /// Numbers a package's features in dependency order, gives each the set of
    /// features it enables, and resolves the features that the package's and the
    /// workspace's metadata require and ignore, and those enabled by default.
    pub fn builder(
        strings: &mut Rodeo<MiniSpur>,
        package: &PackageManifest,
        workspace_metadata: &FeaturexMetadata,
    ) -> (r: Result<FeatureSetBuilder, FeatureSetError>)
        requires
            interner_wf(interned(*old(strings))),
            declared_names(package.features@).no_duplicates(),
            workspace_keys_valid(*workspace_metadata, interned(*old(strings))),
            builder_fits(
                *package,
                references(workspace_metadata.required@, interned(*old(strings))),
                references(workspace_metadata.ignored@, interned(*old(strings))),
                interned(*old(strings)),
            ),
        ensures
            interner_wf(interned(*final(strings))),
            interned(*final(strings)) == builder_strings(*package, interned(*old(strings))),
            r is Err <==> builder_fails(
                *package,
                references(workspace_metadata.required@, interned(*old(strings))),
                references(workspace_metadata.ignored@, interned(*old(strings))),
            ),
            builder_outcome(
                *package,
                *workspace_metadata,
                interned(*old(strings)),
                interned(*final(strings)),
                r,
            ),
            r matches Ok(b) ==> forall|k: int, j: int|
                0 <= k < package.features@.len() && 0 <= j < package.features@[k].1@.len()
                    && declared_names(package.features@).contains(
                    #[trigger] package.features@[k].1@[j]@,
                ) ==> b.set_at(
                    b.names_in(interned(*final(strings))).index_of(package.features@[k].1@[j]@),
                ).subset_of(
                    b.set_at(b.names_in(interned(*final(strings))).index_of(package.features@[k].0@)),
                ),
    {
        let ghost s0 = interned(*strings);
        let ghost initial = declared_entries(package.features@);
        let (features, all) = match order_features(&package.features, strings) {
            Some(x) => x,
            None => {
                return Err(FeatureSetError { cause: FeatureSetFailure::DependencyCycle });
            },
        };
        let ghost order = placement(initial, Seq::empty())->0;
        let ghost s1 = interned(*strings);
        let metadata = match &package.featurex {
            Err(_) => {
                return Err(
                    FeatureSetError {
                        cause: FeatureSetFailure::Metadata(crate::metadata::FeaturexMetadataError),
                    },
                );
            },
            Ok(section) => FeaturexMetadata::from_featurex_metadata(section, strings),
        };
        let ghost sec = package.featurex->Ok_0;
        let ghost s2 = interned(*strings);
        proof {
            crate::metadata::lemma_intern_all_grows(s0, declared_names(package.features@));
            lemma_intern_section_extends(s1, sec);
            lemma_placed_extends(features@, order, s1, s2);
            match sec {
                None => {
                    assert(references(metadata.required@, s2) =~= section_required(sec));
                    assert(references(metadata.ignored@, s2) =~= section_ignored(sec));
                },
                Some(m) => {
                    lemma_parsed_references(metadata.required@, m.required@, s2);
                    lemma_parsed_references(metadata.ignored@, m.ignored@, s2);
                },
            }
            lemma_references_extend(workspace_metadata.required@, s0, s2);
            lemma_references_extend(workspace_metadata.ignored@, s0, s2);
        }
        let required = match get_bitset(
            features.as_slice(),
            &metadata.required,
            &workspace_metadata.required,
            &*strings,
        ) {
            Ok(b) => b,
            Err(e) => {
                return Err(
                    FeatureSetError {
                        cause: FeatureSetFailure::MetadataBitSet(
                            MetadataBitSetError { name: "required".to_owned(), cause: e },
                        ),
                    },
                );
            },
        };
        let ignored = match get_bitset(
            features.as_slice(),
            &metadata.ignored,
            &workspace_metadata.ignored,
            &*strings,
        ) {
            Ok(b) => b,
            Err(e) => {
                return Err(
                    FeatureSetError {
                        cause: FeatureSetFailure::MetadataBitSet(
                            MetadataBitSetError { name: "ignored".to_owned(), cause: e },
                        ),
                    },
                );
            },
        };
        let default_key = lookup(&*strings, "default");
        let default = match default_key {
            None => BitSet::new(),
            Some(k) => match find_key(features.as_slice(), k) {
                Some(i) => features[i].set,
                None => BitSet::new(),
            },
        };
        proof {
            let fnames = names_of(order);
            order::lemma_placement_topological(initial);
            order::lemma_closure_bounded(order);
            lemma_found_bounded(section_required(sec), fnames);
            lemma_found_bounded(references(workspace_metadata.required@, s0), fnames);
            lemma_found_bounded(section_ignored(sec), fnames);
            lemma_found_bounded(references(workspace_metadata.ignored@, s0), fnames);
            assert forall|i: int| 0 <= i < features@.len() implies (
            #[trigger] features@[i]).set@.subset_of(below(features@.len())) by {
                assert forall|x: nat| features@[i].set@.contains(x) implies below(
                    features@.len(),
                ).contains(x) by {
                    assert(closure_sets(order)[i].contains(x));
                }
            }
            assert forall|i: int| 0 <= i < features@.len() && i < WIDTH implies #[trigger] features@[
                i
            ].set@.contains(i as nat) by {
                order::lemma_closure_holds_deps(order, i);
            }
            assert forall|i: int, x: nat|
                0 <= i < features@.len() && #[trigger] features@[i].set@.contains(x) implies x
                <= i by {
                assert(closure_sets(order)[i].contains(x));
            }
            if names_of(order).contains("default"@) {
                let d = names_of(order).index_of("default"@);
                assert forall|x: nat| closure_sets(order)[d].contains(x) implies below(
                    features@.len(),
                ).contains(x) by {
                    assert(closure_sets(order)[d].contains(x));
                }
            }
            match default_key {
                None => {},
                Some(k) => {
                    lemma_key_position_name(features@, s2, k);
                },
            }
        }
        let b = FeatureSetBuilder { required, ignored, features, default, all };
        proof {
            let s_end = interned(*strings);
            assert(b.built_as(order, s_end) && b.valid_in(s_end));
            assert forall|k: int, j: int|
                0 <= k < package.features@.len() && 0 <= j < package.features@[k].1@.len()
                    && declared_names(package.features@).contains(
                    #[trigger] package.features@[k].1@[j]@,
                ) implies b.set_at(b.names_in(s_end).index_of(package.features@[k].1@[j]@)).subset_of(
                b.set_at(b.names_in(s_end).index_of(package.features@[k].0@)),
            ) by {
                lemma_builder_dependencies_enabled(*package, b, order, s_end, k, j);
            }
        }
        Ok(b)
    }
}

impl FeatureSetBuilder {
    /// The set of the feature at position `i`.
    pub closed spec fn set_at(&self, i: int) -> Set<nat> {
        self.features@[i].set@
    }

    /// The features enabled by default.
    pub closed spec fn default_set(&self) -> Set<nat> {
        self.default@
    }

    /// Ties the features to the read-only interner of their names.
    pub fn build(self, strings: Rc<RodeoReader<MiniSpur>>) -> (r: FeatureSet)
        requires
            self.valid_in(reader_strings(*strings)),
        ensures
            r.len() == self.len(),
            r.names() == self.names_in(reader_strings(*strings)),
            forall|i: int| 0 <= i < self.len() ==> r.set_at(i) == self.set_at(i),
            r.required_set() == self.required_set(),
            r.ignored_set() == self.ignored_set(),
            r.default_set() == self.default_set(),
            r.all_set() == below(self.len()),
            r.infos() == self.infos(),
            r.interned_names() == reader_strings(*strings),
            r.keeps_layout(),
    {
        FeatureSet {
            required: self.required,
            ignored: self.ignored,
            default: self.default,
            features: self.features,
            all: self.all,
            strings,
        }
    }
}

impl FeatureSet {
    /// The number of features.
    pub closed spec fn len(&self) -> nat {
        self.features@.len()
    }

    /// The strings of the interner the set holds.
    pub closed spec fn interned_names(&self) -> Seq<Seq<char>> {
        reader_strings(*self.strings)
    }

    /// The names of the features, by position.
    pub closed spec fn names(&self) -> Seq<Seq<char>> {
        info_names(self.features@, reader_strings(*self.strings))
    }

    /// The set of the feature at position `i`: itself and the features it enables.
    pub closed spec fn set_at(&self, i: int) -> Set<nat> {
        self.features@[i].set@
    }

    /// The features that must always be enabled.
    pub closed spec fn required_set(&self) -> Set<nat> {
        self.required@
    }

    /// The features that are never varied.
    pub closed spec fn ignored_set(&self) -> Set<nat> {
        self.ignored@
    }

    /// The features enabled by default.
    pub closed spec fn default_set(&self) -> Set<nat> {
        self.default@
    }

    /// Every feature position of a word.
    pub closed spec fn all_set(&self) -> Set<nat> {
        self.all@
    }

    /// The positions that are varied: neither required nor ignored.
    pub closed spec fn variable_set(&self) -> Set<nat> {
        self.all@.difference(self.required@).difference(self.ignored@)
    }

    /// The numbered features, with their names' keys and their sets.
    pub closed spec fn infos(&self) -> Seq<FeatureInfo> {
        self.features@
    }

    /// What every feature set keeps: one name per feature, the names distinct;
    /// each feature's set holds positions of features only, none later than its
    /// own, and its own where that fits in a word; the lists hold positions of
    /// features only.
    pub open spec fn keeps_layout(&self) -> bool {
        &&& self.names().len() == self.len()
        &&& self.names().no_duplicates()
        &&& forall|i: int, x: nat|
            0 <= i < self.len() && #[trigger] self.set_at(i).contains(x) ==> x <= i
        &&& forall|i: int|
            0 <= i < self.len() && i < WIDTH ==> #[trigger] self.set_at(i).contains(i as nat)
        &&& forall|i: int| 0 <= i < self.len() ==> #[trigger] self.set_at(i).subset_of(below(self.len()))
        &&& self.required_set().subset_of(below(self.len()))
        &&& self.ignored_set().subset_of(below(self.len()))
        &&& self.default_set().subset_of(below(self.len()))
        &&& self.all_set() == below(self.len())
    }

    /// The set's invariant gives its layout.
    proof fn lemma_layout(&self)
        requires
            valid_parts(
                self.features@,
                self.required@,
                self.ignored@,
                self.default@,
                self.all@,
                reader_strings(*self.strings),
            ),
        ensures
            self.keeps_layout(),
    {
    }
}

/// Law: every position the required iterator hands out is one that the
/// iterator of any combination holding the required features hands out too.
pub proof fn lemma_required_in_combination(fs: FeatureSet, combination: Set<nat>)
    requires
        fs.required_set().subset_of(combination),
    ensures
        forall|x: int| #[trigger]
            ones_from(fs.required_set(), 0).contains(x) ==> ones_from(combination, 0).contains(x),
{
    lemma_ones_from(fs.required_set(), 0);
    lemma_ones_from(combination, 0);
    assert forall|x: int| #[trigger] ones_from(fs.required_set(), 0).contains(x) implies ones_from(
        combination,
        0,
    ).contains(x) by {
        let k = choose|k: int|
            0 <= k < ones_from(fs.required_set(), 0).len() && ones_from(fs.required_set(), 0)[k]
                == x;
        assert(fs.required_set().contains(ones_from(fs.required_set(), 0)[k] as nat));
    }
}

/// Law: a dependency is kept exactly when it is among the declared
/// dependencies and names a feature of the package.
pub proof fn lemma_known_deps_exact(deps: Seq<Seq<char>>, names: Seq<Seq<char>>)
    ensures
        forall|x: Seq<char>|
            #[trigger] known_deps(deps, names).contains(x) <==> deps.contains(x) && names.contains(
                x,
            ),
    decreases deps.len(),
{
    if deps.len() > 0 {
        let init = known_deps(deps.drop_last(), names);
        lemma_known_deps_exact(deps.drop_last(), names);
        assert forall|x: Seq<char>|
            #[trigger] known_deps(deps, names).contains(x) <==> deps.contains(x) && names.contains(
                x,
            ) by {
            let kd = known_deps(deps, names);
            if kd.contains(x) {
                let q = choose|q: int| 0 <= q < kd.len() && kd[q] == x;
                if q < init.len() {
                    assert(kd[q] == init[q]);
                    assert(init.contains(x));
                    let r = choose|r: int| 0 <= r < deps.drop_last().len() && deps.drop_last()[r]
                        == x;
                    assert(deps[r] == x);
                } else {
                    assert(deps[deps.len() - 1] == x);
                }
            }
            if deps.contains(x) && names.contains(x) {
                let r = choose|r: int| 0 <= r < deps.len() && deps[r] == x;
                if r < deps.len() - 1 {
                    assert(deps.drop_last()[r] == x);
                    assert(init.contains(x));
                    let q = choose|q: int| 0 <= q < init.len() && init[q] == x;
                    assert(kd[q] == x);
                } else {
                    assert(kd[kd.len() - 1] == x);
                }
            }
        }
    }
}

/// Law: the missing names of a list of references are exactly the names of its
/// references that are not optional and name no feature.
pub proof fn lemma_missing_names_exact(refs: Seq<Reference>, fnames: Seq<Seq<char>>)
    ensures
        forall|x: Seq<char>|
            #[trigger] missing_names(refs, fnames).contains(x) <==> exists|k: int|
                0 <= k < refs.len() && !(#[trigger] refs[k]).0 && !fnames.contains(refs[k].1) && x
                    == refs[k].1,
    decreases refs.len(),
{
    if refs.len() > 0 {
        let init_refs = refs.drop_last();
        let init = missing_names(init_refs, fnames);
        lemma_missing_names_exact(init_refs, fnames);
        let f = missing_names(refs, fnames);
        assert forall|x: Seq<char>|
            #[trigger] f.contains(x) <==> exists|k: int|
                0 <= k < refs.len() && !(#[trigger] refs[k]).0 && !fnames.contains(refs[k].1) && x
                    == refs[k].1 by {
            if f.contains(x) {
                let q = choose|q: int| 0 <= q < f.len() && f[q] == x;
                if q < init.len() {
                    assert(f[q] == init[q]);
                    assert(init.contains(x));
                    let k = choose|k: int|
                        0 <= k < init_refs.len() && !(#[trigger] init_refs[k]).0 && !fnames.contains(
                            init_refs[k].1,
                        ) && x == init_refs[k].1;
                    assert(refs[k] == init_refs[k]);
                } else {
                    assert(refs[refs.len() - 1] == refs.last());
                }
            }
            if exists|k: int|
                0 <= k < refs.len() && !(#[trigger] refs[k]).0 && !fnames.contains(refs[k].1) && x
                    == refs[k].1 {
                let k = choose|k: int|
                    0 <= k < refs.len() && !(#[trigger] refs[k]).0 && !fnames.contains(refs[k].1)
                        && x == refs[k].1;
                if k < refs.len() - 1 {
                    assert(init_refs[k] == refs[k]);
                    assert(init.contains(x));
                    let q = choose|q: int| 0 <= q < init.len() && init[q] == x;
                    assert(f[q] == x);
                } else {
                    assert(f[f.len() - 1] == x);
                }
            }
        }
    } else {
        assert(missing_names(refs, fnames) =~= Seq::<Seq<char>>::empty());
    }
}

/// Law: the positions found for a list of references are exactly the positions
/// of the referenced names that are features, whether a reference is optional
/// or not.
pub proof fn lemma_found_positions_exact(refs: Seq<Reference>, fnames: Seq<Seq<char>>)
    ensures
        forall|x: int|
            #[trigger] found_positions(refs, fnames).contains(x) <==> exists|k: int|
                0 <= k < refs.len() && fnames.contains(#[trigger] refs[k].1) && x
                    == fnames.index_of(refs[k].1),
    decreases refs.len(),
{
    if refs.len() > 0 {
        let init_refs = refs.drop_last();
        let init = found_positions(init_refs, fnames);
        lemma_found_positions_exact(init_refs, fnames);
        let f = found_positions(refs, fnames);
        assert forall|x: int|
            #[trigger] f.contains(x) <==> exists|k: int|
                0 <= k < refs.len() && fnames.contains(#[trigger] refs[k].1) && x == fnames.index_of(
                    refs[k].1,
                ) by {
            if f.contains(x) {
                let q = choose|q: int| 0 <= q < f.len() && f[q] == x;
                if q < init.len() {
                    assert(f[q] == init[q]);
                    assert(init.contains(x));
                    let k = choose|k: int|
                        0 <= k < init_refs.len() && fnames.contains(#[trigger] init_refs[k].1) && x
                            == fnames.index_of(init_refs[k].1);
                    assert(refs[k] == init_refs[k]);
                } else {
                    assert(refs[refs.len() - 1] == refs.last());
                }
            }
            if exists|k: int|
                0 <= k < refs.len() && fnames.contains(#[trigger] refs[k].1) && x == fnames.index_of(
                    refs[k].1,
                ) {
                let k = choose|k: int|
                    0 <= k < refs.len() && fnames.contains(#[trigger] refs[k].1) && x
                        == fnames.index_of(refs[k].1);
                if k < refs.len() - 1 {
                    assert(init_refs[k] == refs[k]);
                    assert(init.contains(x));
                    let q = choose|q: int| 0 <= q < init.len() && init[q] == x;
                    assert(f[q] == x);
                } else {
                    assert(f[f.len() - 1] == x);
                }
            }
        }
    } else {
        assert(found_positions(refs, fnames) =~= Seq::<int>::empty());
    }
}

/// Law: the set used for feature `i` in the combinations is the set of feature
/// `i`.
pub proof fn lemma_sets_are_feature_sets(fs: FeatureSet)
    ensures
        fs.sets().len() == fs.len(),
        forall|i: int| 0 <= i < fs.len() ==> #[trigger] fs.sets()[i] == fs.set_at(i),
{
}

/// Law: the varied positions are the positions of features within a word that
/// are neither required nor ignored, and the varied features are listed by
/// exactly those positions.
pub proof fn lemma_variable_positions(fs: FeatureSet)
    requires
        fs.keeps_layout(),
    ensures
        fs.variable_set() == below(fs.len()).difference(fs.required_set()).difference(
            fs.ignored_set(),
        ),
        forall|x: usize|
            #[trigger] fs.variable().contains(x) <==> (x < fs.len() && x < WIDTH
                && !fs.required_set().contains(x as nat) && !fs.ignored_set().contains(x as nat)),
        fs.variable().no_duplicates(),
{
    let v = fs.variable_set();
    assert(v =~= below(fs.len()).difference(fs.required_set()).difference(fs.ignored_set()));
    lemma_ones_from(v, 0);
    let o = ones_from(v, 0);
    let seq = fs.variable();
    assert forall|x: usize|
        #[trigger] seq.contains(x) <==> (x < fs.len() && x < WIDTH && !fs.required_set().contains(
            x as nat,
        ) && !fs.ignored_set().contains(x as nat)) by {
        if seq.contains(x) {
            let k = choose|k: int| 0 <= k < seq.len() && seq[k] == x;
            assert(seq[k] == o[k] as usize);
            assert(v.contains(o[k] as nat));
        }
        if x < fs.len() && x < WIDTH && !fs.required_set().contains(x as nat)
            && !fs.ignored_set().contains(x as nat) {
            assert(v.contains(x as nat));
            assert(o.contains(x as int));
            let k = choose|k: int| 0 <= k < o.len() && o[k] == x as int;
            assert(seq[k] == x);
        }
    }
    assert forall|a: int, b: int| 0 <= a < seq.len() && 0 <= b < seq.len() && a != b implies seq[a]
        != seq[b] by {
        assert(seq[a] == o[a] as usize);
        assert(seq[b] == o[b] as usize);
    }
}

/// Law: within a feature set, the feature found by the name of the feature at
/// position `p` is the one at `p`.
pub proof fn lemma_name_finds_position(fs: FeatureSet, p: int)
    requires
        fs.keeps_layout(),
        0 <= p < fs.len(),
    ensures
        fs.names().contains(fs.names()[p]),
        fs.names().index_of(fs.names()[p]) == p,
{
    let n = fs.names();
    assert(n.contains(n[p]));
    let q = n.index_of(n[p]);
    assert(n[q] == n[p]);
}

/// Law: within a feature set, enabling everything another feature enables is
/// reflexive and transitive, and two features at positions that fit in a word
/// that each enable everything the other enables are the same feature.
pub proof fn lemma_superset_order(fs: FeatureSet, a: int, b: int, c: int)
    requires
        fs.keeps_layout(),
        0 <= a < fs.len(),
        0 <= b < fs.len(),
        0 <= c < fs.len(),
    ensures
        fs.set_at(a).subset_of(fs.set_at(a)),
        fs.set_at(a).subset_of(fs.set_at(b)) && fs.set_at(b).subset_of(fs.set_at(c))
            ==> fs.set_at(a).subset_of(fs.set_at(c)),
        a < WIDTH && b < WIDTH && fs.set_at(a).subset_of(fs.set_at(b)) && fs.set_at(b).subset_of(
            fs.set_at(a),
        ) ==> a == b,
{
    if a < WIDTH && b < WIDTH && fs.set_at(a).subset_of(fs.set_at(b)) && fs.set_at(b).subset_of(
        fs.set_at(a),
    ) {
        assert(fs.set_at(a).contains(a as nat));
        assert(fs.set_at(b).contains(b as nat));
        assert(fs.set_at(b).contains(a as nat));
        assert(fs.set_at(a).contains(b as nat));
    }
}

/// A feature of a feature set.
pub struct Feature<'a> {
    feature: &'a FeatureInfo,
    set: &'a FeatureSet,
}

impl<'a> Feature<'a> {
    /// The feature is the one at its position in its set.
    #[verifier::type_invariant]
    spec fn inv(&self) -> bool {
        &&& 0 <= self.feature.index < self.set.features@.len()
        &&& self.set.features@[self.feature.index as int] == *self.feature
    }

    /// The position of the feature in its set.
    pub closed spec fn position(&self) -> int {
        self.feature.index as int
    }

    /// The set the feature belongs to.
    pub closed spec fn owner(&self) -> FeatureSet {
        *self.set
    }

    fn new(feature: &'a FeatureInfo, set: &'a FeatureSet) -> (r: Self)
        requires
            0 <= feature.index < set.features@.len(),
            set.features@[feature.index as int] == *feature,
        ensures
            r.position() == feature.index,
            r.owner() == *set,
    {
        Feature { feature, set }
    }

    /// The feature's name.
    pub fn name(&self) -> (r: &str)
        ensures
            r@ == self.owner().names()[self.position()],
            0 <= self.position() < self.owner().len(),
            self.owner().keeps_layout(),
    {
        proof {
            use_type_invariant(self);
            use_type_invariant(self.set);
            self.set.lemma_layout();
        }
        resolve(&self.set.strings, self.feature.name)
    }

    /// Whether the feature, with everything it enables, is enabled by default.
    pub fn enabled_by_default(&self) -> (r: bool)
        ensures
            r == self.owner().set_at(self.position()).subset_of(self.owner().default_set()),
            self.owner().keeps_layout(),
    {
        proof {
            use_type_invariant(self);
            use_type_invariant(self.set);
            self.set.lemma_layout();
        }
        self.set.default.is_superset(&self.feature.set)
    }

    /// Whether this feature enables everything that `other` enables.
    pub fn is_superset(&self, other: &Feature) -> (r: bool)
        ensures
            r == other.owner().set_at(other.position()).subset_of(
                self.owner().set_at(self.position()),
            ),
            self.owner().keeps_layout(),
    {
        proof {
            use_type_invariant(self);
            use_type_invariant(other);
            use_type_invariant(self.set);
            self.set.lemma_layout();
        }
        self.feature.set.is_superset(&other.feature.set)
    }
}

/// The positions of `s` from `from` up to the end of the word, in increasing
/// order.
pub open spec fn ones_from(s: Set<nat>, from: nat) -> Seq<int>
    decreases 64 - from,
{
    if from >= 64 {
        Seq::empty()
    } else if s.contains(from) {
        seq![from as int] + ones_from(s, from + 1)
    } else {
        ones_from(s, from + 1)
    }
}

/// The features of a set of positions, in increasing order of position.
pub struct FeaturesIter<'a> {
    bits: BitSet,
    next_index: u32,
    set: &'a FeatureSet,
}

impl<'a> FeaturesIter<'a> {
    /// Every position is one of a feature of the set.
    #[verifier::type_invariant]
    spec fn inv(&self) -> bool {
        &&& self.bits@.subset_of(below(self.set.features@.len()))
        &&& self.next_index <= 64
    }

    /// The positions of the features still to come.
    pub closed spec fn remaining(&self) -> Seq<int> {
        ones_from(self.bits@, self.next_index as nat)
    }

    /// The set the features belong to.
    pub closed spec fn owner(&self) -> FeatureSet {
        *self.set
    }

    /// The next feature, or `None` once all were handed out.
    pub fn next(&mut self) -> (r: Option<Feature<'a>>)
        ensures
            final(self).owner() == old(self).owner(),
            old(self).remaining().len() > 0 ==> (r matches Some(f) && f.position() == old(
                self,
            ).remaining()[0] && f.owner() == old(self).owner()),
            old(self).remaining().len() > 0 ==> final(self).remaining() == old(
                self,
            ).remaining().drop_first(),
            old(self).remaining().len() == 0 ==> r is None && final(self).remaining().len() == 0,
    {
        proof {
            use_type_invariant(&*self);
        }
        let ghost start = old(self).remaining();
        while self.next_index < 64
            invariant
                self.bits == old(self).bits,
                self.set == old(self).set,
                self.next_index <= 64,
                self.bits@.subset_of(below(self.set.features@.len())),
                start == old(self).remaining(),
                start == ones_from(self.bits@, self.next_index as nat),
            decreases 64 - self.next_index,
        {
            let i = self.next_index;
            self.next_index = i + 1;
            match self.bits.get(i) {
                Some(true) => {
                    proof {
                        use_type_invariant(self.set);
                        assert(below(self.set.features@.len()).contains(i as nat));
                        assert(start == seq![i as int] + ones_from(self.bits@, i as nat + 1));
                        assert(start.drop_first() =~= ones_from(self.bits@, i as nat + 1));
                    }
                    return Some(Feature::new(&self.set.features[i as usize], self.set));
                },
                _ => {},
            }
        }
        None
    }
}

/// A combination of features of a set.
pub struct Features<'a>(BitSet, &'a FeatureSet);

impl<'a> Features<'a> {
    /// Every position is one of a feature of the set.
    #[verifier::type_invariant]
    spec fn inv(&self) -> bool {
        self.0@.subset_of(below(self.1.features@.len()))
    }

    /// The positions of the features in the combination.
    pub closed spec fn positions(&self) -> Set<nat> {
        self.0@
    }

    /// The set the features belong to.
    pub closed spec fn owner(&self) -> FeatureSet {
        *self.1
    }

    /// The features of the combination, in increasing order of position.
    pub fn iter(&self) -> (r: FeaturesIter<'a>)
        ensures
            r.remaining() == ones_from(self.positions(), 0),
            r.owner() == self.owner(),
            self.owner().keeps_layout(),
            self.positions().subset_of(below(self.owner().len())),
    {
        proof {
            use_type_invariant(self);
            use_type_invariant(self.1);
            self.1.lemma_layout();
        }
        FeaturesIter { bits: self.0, next_index: 0, set: self.1 }
    }
}

impl FeatureSet {
    /// The feature named `name`, if the set has one.
    pub fn get(&self, name: &str) -> (r: Option<Feature<'_>>)
        ensures
            r is Some <==> self.names().contains(name@),
            r matches Some(f) ==> f.owner() == *self && f.position() == self.names().index_of(
                name@,
            ),
            self.keeps_layout(),
    {
        proof {
            use_type_invariant(self);
            self.lemma_layout();
        }
        match crate::interner::reader_lookup(&self.strings, name) {
            None => {
                proof {
                    let fnames = self.names();
                    if fnames.contains(name@) {
                        let i = fnames.index_of(name@);
                        assert(reader_strings(*self.strings)[self.features@[i].name as int]
                            == name@);
                    }
                }
                None
            },
            Some(k) => {
                proof {
                    lemma_key_position_name(self.features@, self.interned_names(), k);
                }
                match find_key(self.features.as_slice(), k) {
                    Some(i) => Some(Feature::new(&self.features[i], self)),
                    None => None,
                }
            },
        }
    }

    /// Every feature, in order of position (as far as positions fit in a word).
    pub fn features(&self) -> (r: FeaturesIter<'_>)
        ensures
            self.all_set() == below(self.len()),
            r.remaining() == ones_from(self.all_set(), 0),
            r.owner() == *self,
            self.keeps_layout(),
    {
        proof {
            use_type_invariant(self);
            self.lemma_layout();
        }
        FeaturesIter { bits: self.all, next_index: 0, set: self }
    }

    /// The required features, in order of position.
    pub fn required(&self) -> (r: FeaturesIter<'_>)
        ensures
            r.remaining() == ones_from(self.required_set(), 0),
            r.owner() == *self,
            self.keeps_layout(),
    {
        proof {
            use_type_invariant(self);
            self.lemma_layout();
        }
        FeaturesIter { bits: self.required, next_index: 0, set: self }
    }
}

/// The required positions together with the sets at `indices`.
pub open spec fn combination(required: Set<nat>, sets: Seq<Set<nat>>, indices: Seq<usize>) -> Set<
    nat,
>
    decreases indices.len(),
{
    if indices.len() == 0 {
        required
    } else {
        combination(required, sets, indices.drop_last()).union(sets[indices.last() as int])
    }
}

/// The required positions together with the sets of the features in `chosen`.
pub open spec fn combination_of_set(
    required: Set<nat>,
    sets: Seq<Set<nat>>,
    chosen: Set<usize>,
) -> Set<nat> {
    Set::new(
        |x: nat|
            required.contains(x) || exists|i: usize| chosen.contains(i) && (#[trigger] sets[i as int]).contains(x),
    )
}

/// The candidates that have not been seen, each once, in order.
pub open spec fn fresh_sets(seen: Seq<Set<nat>>, candidates: Seq<Set<nat>>) -> Seq<Set<nat>>
    decreases candidates.len(),
{
    if candidates.len() == 0 {
        Seq::empty()
    } else if seen.contains(candidates[0]) {
        fresh_sets(seen, candidates.drop_first())
    } else {
        seq![candidates[0]] + fresh_sets(seen.push(candidates[0]), candidates.drop_first())
    }
}

/// Law: the fresh candidates are distinct, none was seen before, and they are
/// exactly the candidates not seen before.
pub proof fn lemma_fresh_sets(seen: Seq<Set<nat>>, candidates: Seq<Set<nat>>)
    ensures
        fresh_sets(seen, candidates).no_duplicates(),
        forall|k: int|
            0 <= k < fresh_sets(seen, candidates).len() ==> !seen.contains(
                #[trigger] fresh_sets(seen, candidates)[k],
            ),
        forall|x: Set<nat>|
            fresh_sets(seen, candidates).contains(x) <==> candidates.contains(x) && !seen.contains(
                x,
            ),
    decreases candidates.len(),
{
    if candidates.len() > 0 {
        let c = candidates[0];
        let rest = candidates.drop_first();
        if seen.contains(c) {
            lemma_fresh_sets(seen, rest);
            assert forall|x: Set<nat>| fresh_sets(seen, candidates).contains(x) <==> candidates.contains(
                x,
            ) && !seen.contains(x) by {
                if candidates.contains(x) && x != c {
                    let k = choose|k: int| 0 <= k < candidates.len() && candidates[k] == x;
                    assert(rest[k - 1] == x);
                }
                if rest.contains(x) {
                    let k = choose|k: int| 0 <= k < rest.len() && rest[k] == x;
                    assert(candidates[k + 1] == x);
                }
            }
        } else {
            let seen2 = seen.push(c);
            lemma_fresh_sets(seen2, rest);
            let tail = fresh_sets(seen2, rest);
            let all = fresh_sets(seen, candidates);
            assert(all == seq![c] + tail);
            assert forall|k: int| 0 <= k < all.len() implies !seen.contains(#[trigger] all[k]) by {
                if k > 0 {
                    assert(all[k] == tail[k - 1]);
                    assert(!seen2.contains(tail[k - 1]));
                    if seen.contains(tail[k - 1]) {
                        let q = choose|q: int| 0 <= q < seen.len() && seen[q] == tail[k - 1];
                        assert(seen2[q] == tail[k - 1]);
                    }
                }
            }
            assert forall|a: int, b: int| 0 <= a < all.len() && 0 <= b < all.len() && a != b implies all[a]
                != all[b] by {
                if a > 0 && b > 0 {
                    assert(all[a] == tail[a - 1]);
                    assert(all[b] == tail[b - 1]);
                } else if a == 0 {
                    assert(all[b] == tail[b - 1]);
                    assert(!seen2.contains(tail[b - 1]));
                    assert(seen2[seen.len() as int] == c);
                } else {
                    assert(all[a] == tail[a - 1]);
                    assert(!seen2.contains(tail[a - 1]));
                    assert(seen2[seen.len() as int] == c);
                }
            }
            assert forall|x: Set<nat>| all.contains(x) <==> candidates.contains(x) && !seen.contains(
                x,
            ) by {
                if all.contains(x) {
                    let k = choose|k: int| 0 <= k < all.len() && all[k] == x;
                    if k > 0 {
                        assert(all[k] == tail[k - 1]);
                        assert(tail.contains(x));
                        let q = choose|q: int| 0 <= q < rest.len() && rest[q] == x;
                        assert(candidates[q + 1] == x);
                    } else {
                        assert(candidates[0] == x);
                    }
                }
                if candidates.contains(x) && !seen.contains(x) {
                    if x == c {
                        assert(all[0] == x);
                    } else {
                        let k = choose|k: int| 0 <= k < candidates.len() && candidates[k] == x;
                        assert(rest[k - 1] == x);
                        assert(!seen2.contains(x)) by {
                            if seen2.contains(x) {
                                let q = choose|q: int| 0 <= q < seen2.len() && seen2[q] == x;
                                if q < seen.len() {
                                    assert(seen[q] == x);
                                }
                            }
                        }
                        assert(tail.contains(x));
                        let j = choose|j: int| 0 <= j < tail.len() && tail[j] == x;
                        assert(all[j + 1] == x);
                    }
                }
            }
        }
    }
}

/// A combination built from a list of features is the one of the set of them.
pub proof fn lemma_combination_of_set(
    required: Set<nat>,
    sets: Seq<Set<nat>>,
    indices: Seq<usize>,
)
    ensures
        combination(required, sets, indices) == combination_of_set(
            required,
            sets,
            indices.to_set(),
        ),
    decreases indices.len(),
{
    if indices.len() == 0 {
        assert(combination(required, sets, indices) =~= combination_of_set(
            required,
            sets,
            indices.to_set(),
        ));
    } else {
        let init = indices.drop_last();
        lemma_combination_of_set(required, sets, init);
        let last = indices.last();
        assert forall|x: nat| combination(required, sets, indices).contains(x)
            <==> combination_of_set(required, sets, indices.to_set()).contains(x) by {
            if combination_of_set(required, sets, indices.to_set()).contains(x) && !required.contains(
                x,
            ) {
                let i = choose|i: usize| indices.to_set().contains(i) && (#[trigger] sets[i as int]).contains(x);
                let k = choose|k: int| 0 <= k < indices.len() && indices[k] == i;
                if k < indices.len() - 1 {
                    assert(init[k] == i);
                    assert(init.to_set().contains(i));
                }
            }
            if combination_of_set(required, sets, init.to_set()).contains(x) && !required.contains(
                x,
            ) {
                let i = choose|i: usize| init.to_set().contains(i) && (#[trigger] sets[i as int]).contains(x);
                let k = choose|k: int| 0 <= k < init.len() && init[k] == i;
                assert(indices[k] == i);
                assert(indices.to_set().contains(i));
            }
            if sets[last as int].contains(x) {
                assert(indices[indices.len() - 1] == last);
                assert(indices.to_set().contains(last));
            }
        }
        assert(combination(required, sets, indices) =~= combination_of_set(
            required,
            sets,
            indices.to_set(),
        ));
    }
}

/// The positions of `ones_from` are positions of the set, from `from` on, each
/// once, in increasing order.
pub proof fn lemma_ones_from(s: Set<nat>, from: nat)
    ensures
        forall|k: int|
            0 <= k < ones_from(s, from).len() ==> from <= #[trigger] ones_from(s, from)[k] < 64
                && s.contains(ones_from(s, from)[k] as nat),
        forall|i: nat| from <= i < 64 && s.contains(i) ==> ones_from(s, from).contains(i as int),
        ones_from(s, from).no_duplicates(),
        forall|a: int, b: int|
            0 <= a < b < ones_from(s, from).len() ==> ones_from(s, from)[a] < ones_from(
                s,
                from,
            )[b],
    decreases 64 - from,
{
    if from < 64 {
        lemma_ones_from(s, from + 1);
        let rest = ones_from(s, from + 1);
        if s.contains(from) {
            let all = ones_from(s, from);
            assert(all == seq![from as int] + rest);
            assert forall|k: int| 0 <= k < all.len() implies from <= #[trigger] all[k] < 64
                && s.contains(all[k] as nat) by {
                if k > 0 {
                    assert(all[k] == rest[k - 1]);
                }
            }
            assert forall|i: nat| from <= i < 64 && s.contains(i) implies all.contains(i as int) by {
                if i == from {
                    assert(all[0] == i);
                } else {
                    let k = choose|k: int| 0 <= k < rest.len() && rest[k] == i as int;
                    assert(all[k + 1] == i as int);
                }
            }
            assert forall|a: int, b: int| 0 <= a < b < all.len() implies all[a] < all[b] by {
                assert(all[b] == rest[b - 1]);
                if a > 0 {
                    assert(all[a] == rest[a - 1]);
                }
            }
            assert forall|a: int, b: int| 0 <= a < all.len() && 0 <= b < all.len() && a != b implies all[a]
                != all[b] by {
                if a > 0 {
                    assert(all[a] == rest[a - 1]);
                }
                if b > 0 {
                    assert(all[b] == rest[b - 1]);
                }
            }
        }
    }
}

impl FeatureSet {
    /// The sets of the features, by position.
    pub closed spec fn sets(&self) -> Seq<Set<nat>> {
        self.features@.map_values(|f: FeatureInfo| f.set@)
    }

    /// The positions of the features that are varied, in increasing order.
    pub closed spec fn variable(&self) -> Seq<usize> {
        ones_from(self.variable_set(), 0).map_values(|i: int| i as usize)
    }

    /// The combination that the required features and the features `indices` make.
    pub closed spec fn combination_of(&self, indices: Seq<usize>) -> Set<nat> {
        combination(self.required@, self.sets(), indices)
    }

    /// The combinations of some lists of features.
    pub closed spec fn candidates(&self, subsets: Seq<Seq<usize>>) -> Seq<Set<nat>> {
        subsets.map_values(|sub: Seq<usize>| self.combination_of(sub))
    }
}

/// The distinct combinations of the required features with each subset of the
/// varied features.
pub struct Permutations<'a> {
    walk: SubsetWalk<'a>,
}

/// The walk through the subsets: the subsets still to come, the set whose
/// features they name, and the combinations handed out so far.
struct SubsetWalk<'a> {
    iter: Powerset<IntoIter<usize>>,
    features: &'a FeatureSet,
    seen: Vec<BitSet>,
}

impl<'a> Permutations<'a> {
    /// Every subset still to come is made of positions of features.
    #[verifier::type_invariant]
    spec fn inv(&self) -> bool {
        self.walk.wf()
    }

    /// The set the features belong to.
    pub closed spec fn owner(&self) -> FeatureSet {
        self.walk.owner()
    }

    /// The combinations handed out so far.
    pub closed spec fn seen_sets(&self) -> Seq<Set<nat>> {
        self.walk.seen_sets()
    }

    /// The combinations still to come, in order.
    pub closed spec fn outputs(&self) -> Seq<Set<nat>> {
        self.walk.outputs()
    }

    /// The next combination not handed out before, or `None` once every subset
    /// was tried.
    pub fn next(&mut self) -> (r: Option<Features<'a>>)
        ensures
            final(self).owner() == old(self).owner(),
            old(self).outputs().len() > 0 ==> (r matches Some(f) && f.positions() == old(
                self,
            ).outputs()[0] && f.owner() == old(self).owner()),
            old(self).outputs().len() > 0 ==> final(self).outputs() == old(
                self,
            ).outputs().drop_first(),
            old(self).outputs().len() == 0 ==> r is None && final(self).outputs().len() == 0,
    {
        proof {
            use_type_invariant(&*self);
        }
        let mut walk = SubsetWalk {
            iter: powerset_of(Vec::new()),
            features: self.walk.features,
            seen: Vec::new(),
        };
        std::mem::swap(&mut walk, &mut self.walk);
        let r = walk.advance();
        self.walk = walk;
        r
    }
}

impl<'a> SubsetWalk<'a> {
    /// Every subset still to come is made of positions of features.
    spec fn wf(&self) -> bool {
        forall|i: int, j: int|
            0 <= i < pending(self.iter).len() && 0 <= j < pending(self.iter)[i].len() ==> (#[trigger] pending(
                self.iter,
            )[i][j]) < self.features.features@.len()
    }

    /// The set the features belong to.
    spec fn owner(&self) -> FeatureSet {
        *self.features
    }

    /// The combinations handed out so far.
    spec fn seen_sets(&self) -> Seq<Set<nat>> {
        self.seen@.map_values(|b: BitSet| b@)
    }

    /// The combinations still to come, in order.
    spec fn outputs(&self) -> Seq<Set<nat>> {
        fresh_sets(self.seen_sets(), self.features.candidates(pending(self.iter)))
    }
}

/// Whether `seen` holds a set with the positions of `set`.
fn holds_set(seen: &Vec<BitSet>, set: &BitSet) -> (r: bool)
    ensures
        r == seen@.map_values(|b: BitSet| b@).contains(set@),
{
    let ghost views = seen@.map_values(|b: BitSet| b@);
    let mut i: usize = 0;
    while i < seen.len()
        invariant
            views == seen@.map_values(|b: BitSet| b@),
            0 <= i <= seen@.len(),
            forall|j: int| 0 <= j < i ==> views[j] != set@,
        decreases seen@.len() - i,
    {
        if seen[i].same(set) {
            proof {
                assert(views[i as int] == set@);
            }
            return true;
        }
        i = i + 1;
    }
    false
}

impl FeatureSet {
    /// The combinations worth building: the required features together with each
    /// subset of the varied ones (those neither required nor ignored), each
    /// distinct combination once, in the order of the subsets.
    pub fn permutations(&self) -> (r: Permutations<'_>)
        ensures
            r.owner() == *self,
            r.outputs() == fresh_sets(
                Seq::empty(),
                self.candidates(powerset_list(self.variable())),
            ),
            r.outputs().no_duplicates(),
            forall|k: int|
                0 <= k < r.outputs().len() ==> self.required_set().subset_of(
                    #[trigger] r.outputs()[k],
                ),
            forall|k: int|
                0 <= k < r.outputs().len() ==> exists|chosen: Set<usize>|
                    chosen.subset_of(self.variable().to_set()) && #[trigger] r.outputs()[k]
                        == combination_of_set(self.required_set(), self.sets(), chosen),
            forall|chosen: Set<usize>|
                chosen.subset_of(self.variable().to_set()) ==> r.outputs().contains(
                    #[trigger] combination_of_set(self.required_set(), self.sets(), chosen),
                ),
            r.outputs().len() > 0,
            r.outputs()[0] == self.required_set(),
            self.keeps_layout(),
            self.sets().len() == self.len(),
            forall|i: int| 0 <= i < self.len() ==> #[trigger] self.sets()[i] == self.set_at(i),
            forall|x: usize|
                #[trigger] self.variable().contains(x) <==> (x < self.len() && x < WIDTH
                    && !self.required_set().contains(x as nat) && !self.ignored_set().contains(
                    x as nat,
                )),
    {
        proof {
            use_type_invariant(self);
            self.lemma_layout();
            lemma_sets_are_feature_sets(*self);
            lemma_variable_positions(*self);
        }
        let mut variable_set = self.all;
        variable_set.difference_with(&self.required);
        variable_set.difference_with(&self.ignored);
        let ghost vs = variable_set@;
        let mut variable: Vec<usize> = Vec::new();
        let mut i: u32 = 0;
        proof {
            assert(variable@.map_values(|x: usize| x as int) + ones_from(vs, 0) =~= ones_from(
                vs,
                0,
            ));
        }
        while i < 64
            invariant
                vs == variable_set@,
                i <= 64,
                variable@.map_values(|x: usize| x as int) + ones_from(vs, i as nat) == ones_from(
                    vs,
                    0,
                ),
            decreases 64 - i,
        {
            let ghost before = variable@;
            match variable_set.get(i) {
                Some(true) => {
                    variable.push(i as usize);
                    proof {
                        assert(variable@.map_values(|x: usize| x as int) =~= before.map_values(
                            |x: usize| x as int,
                        ).push(i as int));
                        assert(ones_from(vs, i as nat) == seq![i as int] + ones_from(
                            vs,
                            i as nat + 1,
                        ));
                        assert(variable@.map_values(|x: usize| x as int) + ones_from(
                            vs,
                            i as nat + 1,
                        ) =~= before.map_values(|x: usize| x as int) + ones_from(vs, i as nat));
                    }
                },
                _ => {},
            }
            i = i + 1;
        }
        proof {
            assert(ones_from(vs, 64) =~= Seq::<int>::empty());
            assert(variable@.map_values(|x: usize| x as int) =~= ones_from(vs, 0));
            assert(variable@ =~= self.variable());
            lemma_ones_from(vs, 0);
        }
        let iter = powerset_of(variable);
        let ghost outs = fresh_sets(Seq::empty(), self.candidates(pending(iter)));
        proof {
            let n = self.features@.len();
            let list = pending(iter);
            assert forall|a: int, b: int|
                0 <= a < list.len() && 0 <= b < list[a].len() implies (#[trigger] list[a][b]) < n by {
                assert(variable@.contains(list[a][b]));
                let k = choose|k: int| 0 <= k < variable@.len() && variable@[k] == list[a][b];
                assert(ones_from(vs, 0)[k] == variable@[k] as int);
                assert(below(n).contains(variable@[k] as nat));
            }
            let cands = self.candidates(list);
            lemma_fresh_sets(Seq::empty(), cands);
            assert forall|k: int| 0 <= k < outs.len() implies self.required_set().subset_of(
                #[trigger] outs[k],
            ) && exists|chosen: Set<usize>|
                chosen.subset_of(self.variable().to_set()) && outs[k] == combination_of_set(
                    self.required_set(),
                    self.sets(),
                    chosen,
                ) by {
                assert(outs.contains(outs[k]));
                let q = choose|q: int| 0 <= q < cands.len() && cands[q] == outs[k];
                lemma_combination_of_set(self.required@, self.sets(), list[q]);
                lemma_combination_required(self.required@, self.sets(), list[q]);
                assert forall|x: usize| list[q].to_set().contains(x) implies self.variable().to_set().contains(
                    x,
                ) by {
                    let j = choose|j: int| 0 <= j < list[q].len() && list[q][j] == x;
                    assert(variable@.contains(list[q][j]));
                }
                let chosen = list[q].to_set();
                assert(chosen.subset_of(self.variable().to_set()));
                assert(outs[k] == combination_of_set(self.required_set(), self.sets(), chosen));
            }
            assert forall|chosen: Set<usize>| chosen.subset_of(self.variable().to_set()) implies outs.contains(
                #[trigger] combination_of_set(self.required_set(), self.sets(), chosen),
            ) by {
                let q = choose|q: int| 0 <= q < list.len() && (#[trigger] list[q]).to_set() == chosen;
                lemma_combination_of_set(self.required@, self.sets(), list[q]);
                assert(cands[q] == combination_of_set(self.required_set(), self.sets(), chosen));
                assert(cands.contains(cands[q]));
                assert(!Seq::<Set<nat>>::empty().contains(cands[q]));
            }
            assert(cands[0] == self.combination_of(list[0]));
            assert(cands[0] == self.required_set());
            assert(!Seq::<Set<nat>>::empty().contains(cands[0]));
            assert(outs == seq![cands[0]] + fresh_sets(seq![cands[0]], cands.drop_first()));
        }
        let seen: Vec<BitSet> = Vec::new();
        proof {
            assert(seen@.map_values(|b: BitSet| b@) =~= Seq::<Set<nat>>::empty());
        }
        Permutations { walk: SubsetWalk { iter, features: self, seen } }
    }
}

/// A combination holds the required positions.
proof fn lemma_combination_required(required: Set<nat>, sets: Seq<Set<nat>>, indices: Seq<usize>)
    ensures
        required.subset_of(combination(required, sets, indices)),
    decreases indices.len(),
{
    if indices.len() > 0 {
        lemma_combination_required(required, sets, indices.drop_last());
    }
}

impl<'a> SubsetWalk<'a> {
    /// The next combination not handed out before, or `None` once every subset
    /// was tried.
    fn advance(&mut self) -> (r: Option<Features<'a>>)
        requires
            old(self).wf(),
        ensures
            final(self).wf(),
            final(self).owner() == old(self).owner(),
            old(self).outputs().len() > 0 ==> (r matches Some(f) && f.positions() == old(
                self,
            ).outputs()[0] && f.owner() == old(self).owner()),
            old(self).outputs().len() > 0 ==> final(self).outputs() == old(
                self,
            ).outputs().drop_first(),
            old(self).outputs().len() == 0 ==> r is None && final(self).outputs().len() == 0,
    {
        proof {
            use_type_invariant(self.features);
        }
        let ghost start = old(self).outputs();
        loop
            invariant
                self.features == old(self).features,
                self.outputs() == start,
                start == old(self).outputs(),
                forall|i: int, j: int|
                    0 <= i < pending(self.iter).len() && 0 <= j < pending(self.iter)[i].len()
                        ==> (#[trigger] pending(self.iter)[i][j]) < self.features.features@.len(),
                valid_parts(
                    self.features.features@,
                    self.features.required@,
                    self.features.ignored@,
                    self.features.default@,
                    self.features.all@,
                    reader_strings(*self.features.strings),
                ),
            decreases pending(self.iter).len(),
        {
            let ghost before = pending(self.iter);
            let ghost seen_before = self.seen_sets();
            let subset = next_subset(&mut self.iter);
            match subset {
                None => {
                    proof {
                        assert(self.features.candidates(before) =~= Seq::<Set<nat>>::empty());
                    }
                    return None;
                },
                Some(indices) => {
                    let n = self.features.features.len();
                    let mut set = BitSet::new();
                    set.union_with(&self.features.required);
                    let mut j: usize = 0;
                    proof {
                        assert(indices@.take(0) =~= Seq::<usize>::empty());
                    }
                    while j < indices.len()
                        invariant
                            indices@ == before[0],
                            0 <= j <= indices@.len(),
                            n == self.features.features@.len(),
                            forall|k: int| 0 <= k < indices@.len() ==> (#[trigger] indices@[k]) < n,
                            set@ == self.features.combination_of(indices@.take(j as int)),
                            set@.subset_of(below(n as nat)),
                            valid_parts(
                                self.features.features@,
                                self.features.required@,
                                self.features.ignored@,
                                self.features.default@,
                                self.features.all@,
                                reader_strings(*self.features.strings),
                            ),
                        decreases indices@.len() - j,
                    {
                        let i = indices[j];
                        set.union_with(&self.features.features[i].set);
                        proof {
                            assert(indices@.take(j as int + 1).drop_last() =~= indices@.take(
                                j as int,
                            ));
                            assert(self.features.sets()[i as int] == self.features.features@[i as int].set@);
                        }
                        j = j + 1;
                    }
                    proof {
                        assert(indices@.take(indices@.len() as int) =~= indices@);
                        let cands = self.features.candidates(before);
                        assert(cands[0] == set@);
                        assert(cands.drop_first() =~= self.features.candidates(pending(self.iter)));
                    }
                    if holds_set(&self.seen, &set) {
                        continue ;
                    }
                    self.seen.push(set);
                    proof {
                        assert(self.seen_sets() =~= seen_before.push(set@));
                    }
                    return Some(Features(set, self.features));
                },
            }
        }
    }
}

/// What a builder built under `s` still is under an interner that extends `s`.
pub proof fn lemma_builder_under(
    b: FeatureSetBuilder,
    order: Seq<Entry>,
    s: Seq<Seq<char>>,
    s2: Seq<Seq<char>>,
)
    requires
        b.built_as(order, s),
        b.valid_in(s),
        extends(s2, s),
        interner_wf(s2),
    ensures
        b.valid_in(s2),
        b.len() == order.len(),
        b.names_in(s2) == names_of(order),
        forall|i: int| 0 <= i < order.len() ==> b.set_at(i) == closure_sets(order)[i],
        b.default_set() == default_features(order),
{
    lemma_placed_extends(b.features@, order, s, s2);
}

/// Law: a builder made from a package numbers each of the package's features
/// once, in positions `0..n`: the names are distinct and are exactly the
/// declared ones, each feature's number is its position, `all` is every
/// position of a word below `n`, and each feature's set holds no later position
/// and its own where that fits in a word.
pub proof fn lemma_builder_numbers_declared(
    package: PackageManifest,
    b: FeatureSetBuilder,
    order: Seq<Entry>,
    s: Seq<Seq<char>>,
)
    requires
        placement(declared_entries(package.features@), Seq::empty()) == Some(order),
        b.built_as(order, s),
        b.valid_in(s),
    ensures
        b.len() == package.features@.len(),
        b.names_in(s).no_duplicates(),
        b.names_in(s).to_set() == declared_names(package.features@).to_set(),
        forall|i: int| 0 <= i < b.len() ==> (#[trigger] b.infos()[i]).index == i,
        b.all_set() == below(b.len()),
        forall|i: int, x: nat| 0 <= i < b.len() && #[trigger] b.set_at(i).contains(x) ==> x <= i,
        forall|i: int| 0 <= i < b.len() && i < WIDTH ==> #[trigger] b.set_at(i).contains(i as nat),
{
    let rem = declared_entries(package.features@);
    order::lemma_placement_topological(rem);
    let names = b.names_in(s);
    let declared = declared_names(package.features@);
    assert(names == names_of(order));
    assert forall|x: Seq<char>| names.to_set().contains(x) <==> declared.to_set().contains(x) by {
        if names.contains(x) {
            let i = choose|i: int| 0 <= i < names.len() && names[i] == x;
            assert(rem.contains(order[i]));
            let k = choose|k: int| 0 <= k < rem.len() && rem[k] == order[i];
            assert(declared[k] == x);
        }
        if declared.contains(x) {
            let k = choose|k: int| 0 <= k < declared.len() && declared[k] == x;
            assert(order.contains(rem[k]));
            let i = choose|i: int| 0 <= i < order.len() && order[i] == rem[k];
            assert(names[i] == x);
        }
    }
    assert(names.to_set() =~= declared.to_set());
}

/// Law: in a builder made from a package, each feature's set holds the set of
/// every feature of the package that it names as a dependency.
pub proof fn lemma_builder_dependencies_enabled(
    package: PackageManifest,
    b: FeatureSetBuilder,
    order: Seq<Entry>,
    s: Seq<Seq<char>>,
    k: int,
    j: int,
)
    requires
        placement(declared_entries(package.features@), Seq::empty()) == Some(order),
        b.built_as(order, s),
        b.valid_in(s),
        0 <= k < package.features@.len(),
        0 <= j < package.features@[k].1@.len(),
        declared_names(package.features@).contains(package.features@[k].1@[j]@),
    ensures
        b.names_in(s).contains(package.features@[k].0@),
        b.names_in(s).contains(package.features@[k].1@[j]@),
        b.set_at(b.names_in(s).index_of(package.features@[k].1@[j]@)).subset_of(
            b.set_at(b.names_in(s).index_of(package.features@[k].0@)),
        ),
{
    let rem = declared_entries(package.features@);
    let declared = declared_names(package.features@);
    order::lemma_placement_topological(rem);
    let names = b.names_in(s);
    assert(names == names_of(order));
    assert(names.no_duplicates());
    let entry = rem[k];
    assert(entry.0 == package.features@[k].0@);
    assert(order.contains(entry));
    let i = choose|i: int| 0 <= i < order.len() && order[i] == entry;
    assert(names[i] == entry.0);
    assert(names.index_of(entry.0) == i);
    let d = package.features@[k].1@[j]@;
    assert(dep_strings(package.features@[k].1)[j] == d);
    lemma_known_deps_exact(dep_strings(package.features@[k].1), declared);
    assert(entry.1 == known_deps(dep_strings(package.features@[k].1), declared));
    assert(entry.1.contains(d));
    let jj = choose|jj: int| 0 <= jj < entry.1.len() && entry.1[jj] == d;
    order::lemma_closure_holds_deps(order, i);
    assert(order[i].1[jj] == d);
    assert(names_of(order).contains(d)) by {
        assert(names_of(order.take(i)).contains(order[i].1[jj]));
        let q = choose|q: int| 0 <= q < names_of(order.take(i)).len() && names_of(order.take(i))[q] == d;
        assert(names_of(order)[q] == d);
    }
    let di = names.index_of(d);
    assert(b.set_at(i) == closure_sets(order)[i]);
    assert(b.set_at(di) == closure_sets(order)[di]);
}

/// Law: in a builder made from a package, every feature that the package's
/// `required` or `ignored` list names, with or without a `?`, is required or
/// ignored, when its position fits in a word.
pub proof fn lemma_builder_resolves_lists(
    package: PackageManifest,
    workspace: FeaturexMetadata,
    s0: Seq<Seq<char>>,
    s: Seq<Seq<char>>,
    b: FeatureSetBuilder,
    k: int,
)
    requires
        builder_outcome(package, workspace, s0, s, Ok(b)),
    ensures
        ({
            let order = placement(declared_entries(package.features@), Seq::empty())->0;
            let fnames = names_of(order);
            let sec = package.featurex->Ok_0;
            &&& package.featurex is Ok
            &&& sec matches Some(m) ==> (0 <= k < m.required@.len() && fnames.contains(
                bare_name(m.required@[k]@),
            ) && fnames.index_of(bare_name(m.required@[k]@)) < WIDTH ==> b.required_set().contains(
                fnames.index_of(bare_name(m.required@[k]@)) as nat,
            ))
            &&& sec matches Some(m) ==> (0 <= k < m.ignored@.len() && fnames.contains(
                bare_name(m.ignored@[k]@),
            ) && fnames.index_of(bare_name(m.ignored@[k]@)) < WIDTH ==> b.ignored_set().contains(
                fnames.index_of(bare_name(m.ignored@[k]@)) as nat,
            ))
        }),
{
    let order = placement(declared_entries(package.features@), Seq::empty())->0;
    let fnames = names_of(order);
    let sec = package.featurex->Ok_0;
    match sec {
        Some(m) => {
            let pr = section_required(sec);
            let pi = section_ignored(sec);
            lemma_found_positions_exact(pr, fnames);
            lemma_found_positions_exact(pi, fnames);
            if 0 <= k < m.required@.len() && fnames.contains(bare_name(m.required@[k]@)) {
                let x = fnames.index_of(bare_name(m.required@[k]@));
                assert(pr[k].1 == bare_name(m.required@[k]@));
                assert(found_positions(pr, fnames).contains(x));
                order::lemma_word_positions(found_positions(pr, fnames));
            }
            if 0 <= k < m.ignored@.len() && fnames.contains(bare_name(m.ignored@[k]@)) {
                let x = fnames.index_of(bare_name(m.ignored@[k]@));
                assert(pi[k].1 == bare_name(m.ignored@[k]@));
                assert(found_positions(pi, fnames).contains(x));
                order::lemma_word_positions(found_positions(pi, fnames));
            }
        },
        None => {},
    }
}

/// Running the builder only adds strings to the interner.
pub proof fn lemma_builder_extends(package: PackageManifest, s0: Seq<Seq<char>>)
    ensures
        extends(builder_strings(package, s0), s0),
{
    let s1 = intern_all(s0, declared_names(package.features@));
    crate::metadata::lemma_intern_all_grows(s0, declared_names(package.features@));
    match placement(declared_entries(package.features@), Seq::empty()) {
        None => {},
        Some(_) => match package.featurex {
            Err(_) => {},
            Ok(sec) => {
                lemma_intern_section_extends(s1, sec);
            },
        },
    }
}

} // verus!
