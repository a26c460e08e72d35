//! Whether a workspace's metadata stays within what the interner and the bit
//! sets can take: the same test that assembling the workspace needs to pass,
//! made on the plain values before any of them is interned.
use crate::feature_set::bits::WIDTH;
use crate::feature_set::order::names_of;
use crate::feature_set::{
    builder_fails, builder_fits, builder_strings, declared_names, feature_order, found_positions,
    list_fits, missing_names, section_ignored, section_required, written_refs, Reference,
};
use crate::interner::{intern_spec, KEY_SPACE};
use crate::metadata::{
    bare_name, bare_names, intern_all, intern_section, strip_question_mark, FeaturexSection,
};
use crate::metadata::{section_fits, FeaturexMetadataError};
use crate::{
    failing_ids, id_listed, id_position, lemma_id_position, lists_id, member_manifests,
    packages_fit,
    strings_after, PackageManifest,
};
use vstd::prelude::*;

verus! {

/// The strings of a list of strings.
pub open spec fn texts(v: Seq<String>) -> Seq<Seq<char>> {
    v.map_values(|s: String| s@)
}

/// Whether `seen` holds `s`.
fn holds_text(seen: &Vec<String>, s: &String) -> (r: bool)
    ensures
        r == texts(seen@).contains(s@),
{
    let mut i: usize = 0;
    while i < seen.len()
        invariant
            0 <= i <= seen@.len(),
            forall|j: int| 0 <= j < i ==> seen@[j]@ != s@,
        decreases seen@.len() - i,
    {
        if seen[i] == *s {
            proof {
                assert(texts(seen@)[i as int] == s@);
            }
            return true;
        }
        i = i + 1;
    }
    proof {
        if texts(seen@).contains(s@) {
            let j = choose|j: int| 0 <= j < texts(seen@).len() && texts(seen@)[j] == s@;
            assert(seen@[j]@ == s@);
        }
    }
    false
}

/// Adds `s` to `seen` as interning it would.
fn add_text(seen: &mut Vec<String>, s: String)
    requires
        texts(old(seen)@).no_duplicates(),
    ensures
        texts(final(seen)@) == intern_spec(texts(old(seen)@), s@),
        texts(final(seen)@).no_duplicates(),
{
    if !holds_text(seen, &s) {
        let ghost before = texts(seen@);
        seen.push(s);
        proof {
            assert(texts(seen@) =~= before.push(s@));
        }
    }
}

/// The bare name of a written name, as a string of its own.
fn bare(w: &String) -> (r: String)
    ensures
        r@ == bare_name(w@),
{
    match strip_question_mark(w.as_str()) {
        Some(t) => t.to_owned(),
        None => w.clone(),
    }
}

/// Adds the bare names of `list` to `seen`, in order, as interning them would.
fn add_bare_names(seen: &mut Vec<String>, list: &Vec<String>)
    requires
        texts(old(seen)@).no_duplicates(),
    ensures
        texts(final(seen)@) == intern_all(texts(old(seen)@), bare_names(list@)),
        texts(final(seen)@).no_duplicates(),
{
    let ghost start = texts(seen@);
    let ghost names = bare_names(list@);
    let mut i: usize = 0;
    while i < list.len()
        invariant
            0 <= i <= list@.len(),
            names == bare_names(list@),
            texts(seen@) == intern_all(start, names.take(i as int)),
            texts(seen@).no_duplicates(),
        decreases list@.len() - i,
    {
        proof {
            crate::metadata::lemma_intern_all_step(start, names, i as int);
        }
        let b = bare(&list[i]);
        add_text(seen, b);
        i = i + 1;
    }
    proof {
        assert(names.take(list@.len() as int) =~= names);
    }
}

/// Adds the names of the features to `seen`, in order, as interning them would,
/// and returns whether they are distinct.
fn add_feature_names(seen: &mut Vec<String>, features: &Vec<(String, Vec<String>)>) -> (r: bool)
    requires
        texts(old(seen)@).no_duplicates(),
    ensures
        texts(final(seen)@) == intern_all(texts(old(seen)@), declared_names(features@)),
        texts(final(seen)@).no_duplicates(),
        r == declared_names(features@).no_duplicates(),
        r ==> features@.len() <= texts(final(seen)@).len(),
{
    let ghost start = texts(seen@);
    let ghost names = declared_names(features@);
    let mut distinct = true;
    let mut i: usize = 0;
    while i < features.len()
        invariant
            0 <= i <= features@.len(),
            names == declared_names(features@),
            texts(seen@) == intern_all(start, names.take(i as int)),
            texts(seen@).no_duplicates(),
            forall|j: int| 0 <= j < i ==> texts(seen@).contains(#[trigger] names[j]),
            distinct == names.take(i as int).no_duplicates(),
        decreases features@.len() - i,
    {
        proof {
            crate::metadata::lemma_intern_all_step(start, names, i as int);
        }
        let mut j: usize = 0;
        let mut again = false;
        while j < i
            invariant
                0 <= j <= i < features@.len(),
                names == declared_names(features@),
                again == exists|k: int| 0 <= k < j && names[k] == names[i as int],
            decreases i - j,
        {
            if features[j].0 == features[i].0 {
                proof {
                    assert(names[j as int] == names[i as int]);
                }
                again = true;
            }
            j = j + 1;
        }
        proof {
            let t = names.take(i as int + 1);
            if again {
                let k = choose|k: int| 0 <= k < i && names[k] == names[i as int];
                assert(t[k] == t[i as int]);
            } else if distinct {
                assert forall|a: int, b: int| 0 <= a < t.len() && 0 <= b < t.len() && a != b implies t[a]
                    != t[b] by {
                    if a < i && b < i {
                        assert(names.take(i as int)[a] == t[a]);
                        assert(names.take(i as int)[b] == t[b]);
                    }
                }
            } else {
                let p = names.take(i as int);
                assert(!p.no_duplicates());
                let (a, b) = choose|a: int, b: int|
                    0 <= a < p.len() && 0 <= b < p.len() && a != b && p[a] == p[b];
                assert(t[a] == t[b]);
            }
        }
        distinct = distinct && !again;
        let ghost before = texts(seen@);
        add_text(seen, features[i].0.clone());
        proof {
            assert forall|j: int| 0 <= j < i + 1 implies texts(seen@).contains(#[trigger] names[j]) by {
                if j < i {
                    assert(before.contains(names[j]));
                    let q = choose|q: int| 0 <= q < before.len() && before[q] == names[j];
                    assert(texts(seen@)[q] == names[j]);
                } else {
                    if !before.contains(names[j]) {
                        assert(texts(seen@)[before.len() as int] == names[j]);
                    } else {
                        let q = choose|q: int| 0 <= q < before.len() && before[q] == names[j];
                        assert(texts(seen@)[q] == names[j]);
                    }
                }
            }
        }
        i = i + 1;
    }
    proof {
        assert(names.take(features@.len() as int) =~= names);
        if distinct {
            crate::feature_set::lemma_distinct_within(names, texts(seen@));
        }
    }
    distinct
}

/// The position of `s` in `order`, if it is there.
fn position_of(order: &Vec<String>, s: &String) -> (r: Option<usize>)
    ensures
        r matches Some(p) ==> p < order@.len() && texts(order@)[p as int] == s@,
        r is None ==> !texts(order@).contains(s@),
{
    let mut i: usize = 0;
    while i < order.len()
        invariant
            0 <= i <= order@.len(),
            forall|j: int| 0 <= j < i ==> order@[j]@ != s@,
        decreases order@.len() - i,
    {
        if order[i] == *s {
            return Some(i);
        }
        i = i + 1;
    }
    proof {
        if texts(order@).contains(s@) {
            let j = choose|j: int| 0 <= j < texts(order@).len() && texts(order@)[j] == s@;
            assert(order@[j]@ == s@);
        }
    }
    None
}

/// Whether a written metadata list names a required feature missing from the
/// features `order`, and whether it fits them: when it names none missing, every
/// feature it names is numbered within a word.
fn check_list(list: &Vec<String>, order: &Vec<String>) -> (r: (bool, bool))
    requires
        texts(order@).no_duplicates(),
    ensures
        r.0 == (missing_names(written_refs(list@), texts(order@)).len() > 0),
        r.1 == list_fits(written_refs(list@), texts(order@)),
{
    let ghost refs = written_refs(list@);
    let ghost fnames = texts(order@);
    let mut missing = false;
    let mut fits = true;
    let mut i: usize = 0;
    while i < list.len()
        invariant
            0 <= i <= list@.len(),
            refs == written_refs(list@),
            fnames == texts(order@),
            fnames.no_duplicates(),
            missing == (missing_names(refs.take(i as int), fnames).len() > 0),
            fits == forall|k: int|
                0 <= k < found_positions(refs.take(i as int), fnames).len() ==> #[trigger] found_positions(
                    refs.take(i as int),
                    fnames,
                )[k] < WIDTH,
        decreases list@.len() - i,
    {
        let ghost t = refs.take(i as int + 1);
        let ghost prev = refs.take(i as int);
        proof {
            assert(t.drop_last() =~= prev);
            assert(t.last() == refs[i as int]);
        }
        let b = bare(&list[i]);
        let optional = strip_question_mark(list[i].as_str()).is_some();
        match position_of(order, &b) {
            None => {
                if !optional {
                    missing = true;
                }
                proof {
                    assert(found_positions(t, fnames) == found_positions(prev, fnames));
                }
            },
            Some(p) => {
                proof {
                    let q = fnames.index_of(b@);
                    assert(fnames.contains(b@));
                    assert(fnames[q] == b@);
                    assert(q == p);
                    let fp = found_positions(prev, fnames);
                    assert(found_positions(t, fnames) == fp.push(p as int));
                    if fits && p < WIDTH {
                        assert forall|k: int|
                            0 <= k < found_positions(t, fnames).len() implies #[trigger] found_positions(
                            t,
                            fnames,
                        )[k] < WIDTH by {
                            if k < fp.len() {
                                assert(found_positions(t, fnames)[k] == fp[k]);
                            }
                        }
                    }
                    if !fits {
                        let k = choose|k: int|
                            0 <= k < fp.len() && !(#[trigger] fp[k] < WIDTH);
                        assert(found_positions(t, fnames)[k] == fp[k]);
                    }
                    if p >= WIDTH {
                        assert(found_positions(t, fnames)[fp.len() as int] == p);
                    }
                }
                if p >= 64 {
                    fits = false;
                }
            },
        }
        i = i + 1;
    }
    proof {
        assert(refs.take(list@.len() as int) =~= refs);
    }
    (missing, missing || fits)
}

/// The lists of a `featurex` section, empty when there is none.
fn section_lists<'a>(sec: &'a Option<FeaturexSection>, empty: &'a Vec<String>) -> (r: (
    &'a Vec<String>,
    &'a Vec<String>,
))
    requires
        empty@.len() == 0,
    ensures
        written_refs(r.0@) == section_required(*sec),
        written_refs(r.1@) == section_ignored(*sec),
        intern_all(intern_all(Seq::empty(), bare_names(r.0@)), bare_names(r.1@)) == intern_section(
            Seq::empty(),
            *sec,
        ),
        forall|s: Seq<Seq<char>>|
            intern_all(intern_all(s, bare_names(r.0@)), bare_names(r.1@)) == #[trigger] intern_section(
                s,
                *sec,
            ),
{
    match sec {
        Some(m) => (&m.required, &m.ignored),
        None => {
            proof {
                assert(written_refs(empty@) =~= Seq::<Reference>::empty());
                assert(bare_names(empty@) =~= Seq::<Seq<char>>::empty());
            }
            (empty, empty)
        },
    }
}

/// Whether a member package fits the builder after the interner `seen`: its
/// feature names are distinct, and the builder's limits hold for it. When it
/// fits, `seen` becomes the interner after building it, and the second result
/// says whether building it fails.
fn package_fits(
    p: &PackageManifest,
    seen: &mut Vec<String>,
    wr_list: &Vec<String>,
    wi_list: &Vec<String>,
) -> (r: (bool, bool))
    requires
        texts(old(seen)@).no_duplicates(),
    ensures
        r.0 == (declared_names(p.features@).no_duplicates() && builder_fits(
            *p,
            written_refs(wr_list@),
            written_refs(wi_list@),
            texts(old(seen)@),
        )),
        r.0 ==> texts(final(seen)@) == builder_strings(*p, texts(old(seen)@)),
        r.0 ==> r.1 == builder_fails(*p, written_refs(wr_list@), written_refs(wi_list@)),
        texts(final(seen)@).no_duplicates(),
{
    let distinct = add_feature_names(seen, &p.features);
    if !distinct {
        return (false, false);
    }
    if seen.len() > KEY_SPACE {
        return (false, false);
    }
    let order = match feature_order(&p.features) {
        None => {
            return (true, true);
        },
        Some(order) => order,
    };
    let section = match &p.featurex {
        Err(_) => {
            return (true, true);
        },
        Ok(section) => section,
    };
    let empty: Vec<String> = Vec::new();
    let (required, ignored) = section_lists(section, &empty);
    let ghost s1 = texts(seen@);
    add_bare_names(seen, required);
    add_bare_names(seen, ignored);
    if seen.len() > KEY_SPACE {
        return (false, false);
    }
    let (mp, fp) = check_list(required, &order);
    let (mw, fw) = check_list(wr_list, &order);
    let (mpi, fpi) = check_list(ignored, &order);
    let (mwi, fwi) = check_list(wi_list, &order);
    proof {
        assert(intern_section(s1, *section) == texts(seen@));
    }
    (fp && fw && (mp || mw || (fpi && fwi)), mp || mw || mpi || mwi)
}

/// What assembling a workspace needs of its input, when its `featurex` metadata
/// can be read: the workspace's lists fit the interner, every member package
/// fits the builder when its turn comes, and when every member builds, the root
/// package's id is one of a member.
pub open spec fn workspace_fits(
    packages: Seq<PackageManifest>,
    members: Seq<String>,
    root_id: Option<String>,
    featurex: Result<Option<FeaturexSection>, FeaturexMetadataError>,
) -> bool {
    featurex matches Ok(sec) ==> {
        let ms = member_manifests(packages, members);
        let wr = section_required(sec);
        let wi = section_ignored(sec);
        &&& section_fits(Seq::empty(), sec)
        &&& packages_fit(ms, wr, wi, intern_section(Seq::empty(), sec))
        &&& (failing_ids(ms, wr, wi).len() == 0 && root_id is Some) ==> id_position(
            ms,
            root_id->0@,
        ) < ms.len()
    }
}

/// Law: when the workspace's `featurex` metadata can be read, the input stays
/// within the limits exactly when the workspace's lists fit the interner, every
/// member fits the builder in its turn, and, when every member builds, a root
/// id, if given, is the id of some member, at whatever position.
pub proof fn lemma_workspace_fits_membership(
    packages: Seq<PackageManifest>,
    members: Seq<String>,
    root_id: Option<String>,
    sec: Option<FeaturexSection>,
)
    ensures
        workspace_fits(packages, members, root_id, Ok(sec)) <==> {
            let ms = member_manifests(packages, members);
            let wr = section_required(sec);
            let wi = section_ignored(sec);
            &&& section_fits(Seq::empty(), sec)
            &&& packages_fit(ms, wr, wi, intern_section(Seq::empty(), sec))
            &&& (failing_ids(ms, wr, wi).len() == 0 && root_id is Some) ==> exists|k: int|
                0 <= k < ms.len() && (#[trigger] ms[k]).id@ == root_id->0@
        },
        workspace_fits(
            packages,
            members,
            root_id,
            Err::<Option<FeaturexSection>, FeaturexMetadataError>(FeaturexMetadataError),
        ),
{
    let ms = member_manifests(packages, members);
    match root_id {
        Some(id) => {
            lemma_id_position(ms, id@);
            if exists|k: int| 0 <= k < ms.len() && (#[trigger] ms[k]).id@ == id@ {
                let k = choose|k: int| 0 <= k < ms.len() && (#[trigger] ms[k]).id@ == id@;
                assert(id_position(ms, id@) <= k);
            }
            if id_position(ms, id@) < ms.len() {
                assert(ms[id_position(ms, id@)].id@ == id@);
            }
        },
        None => {},
    }
}

/// Law: the member packages are exactly the packages whose ids the members
/// list, in their order.
pub proof fn lemma_members_exact(packages: Seq<PackageManifest>, members: Seq<String>)
    ensures
        forall|m: PackageManifest|
            #[trigger] member_manifests(packages, members).contains(m) <==> packages.contains(m)
                && id_listed(members, m.id@),
        member_manifests(packages, members).len() <= packages.len(),
    decreases packages.len(),
{
    if packages.len() > 0 {
        let init = packages.drop_last();
        lemma_members_exact(init, members);
        let mi = member_manifests(init, members);
        let ms = member_manifests(packages, members);
        assert forall|m: PackageManifest|
            #[trigger] ms.contains(m) <==> packages.contains(m) && id_listed(members, m.id@) by {
            if ms.contains(m) {
                let q = choose|q: int| 0 <= q < ms.len() && ms[q] == m;
                if q < mi.len() {
                    assert(ms[q] == mi[q]);
                    assert(mi.contains(m));
                    let r = choose|r: int| 0 <= r < init.len() && init[r] == m;
                    assert(packages[r] == m);
                } else {
                    assert(packages[packages.len() - 1] == m);
                }
            }
            if packages.contains(m) && id_listed(members, m.id@) {
                let r = choose|r: int| 0 <= r < packages.len() && packages[r] == m;
                if r < packages.len() - 1 {
                    assert(init[r] == m);
                    assert(mi.contains(m));
                    let q = choose|q: int| 0 <= q < mi.len() && mi[q] == m;
                    assert(ms[q] == m);
                } else {
                    assert(ms[ms.len() - 1] == m);
                }
            }
        }
    }
}

/// Law: the failing ids are exactly the ids of the packages whose feature sets
/// cannot be made, one for each such package.
pub proof fn lemma_failing_ids_exact(
    pkgs: Seq<PackageManifest>,
    wr: Seq<Reference>,
    wi: Seq<Reference>,
)
    ensures
        forall|x: Seq<char>|
            #[trigger] failing_ids(pkgs, wr, wi).contains(x) <==> exists|k: int|
                0 <= k < pkgs.len() && builder_fails(#[trigger] pkgs[k], wr, wi) && x
                    == pkgs[k].id@,
        failing_ids(pkgs, wr, wi).len() == 0 <==> forall|k: int|
            0 <= k < pkgs.len() ==> !builder_fails(#[trigger] pkgs[k], wr, wi),
    decreases pkgs.len(),
{
    if pkgs.len() > 0 {
        let init = pkgs.drop_last();
        lemma_failing_ids_exact(init, wr, wi);
        let fi = failing_ids(init, wr, wi);
        let f = failing_ids(pkgs, wr, wi);
        assert forall|x: Seq<char>|
            #[trigger] f.contains(x) <==> exists|k: int|
                0 <= k < pkgs.len() && builder_fails(#[trigger] pkgs[k], wr, wi) && x
                    == pkgs[k].id@ by {
            if f.contains(x) {
                let q = choose|q: int| 0 <= q < f.len() && f[q] == x;
                if q < fi.len() {
                    assert(f[q] == fi[q]);
                    assert(fi.contains(x));
                    let k = choose|k: int|
                        0 <= k < init.len() && builder_fails(#[trigger] init[k], wr, wi) && x
                            == init[k].id@;
                    assert(pkgs[k] == init[k]);
                } else {
                    assert(pkgs[pkgs.len() - 1] == pkgs.last());
                }
            }
            if exists|k: int|
                0 <= k < pkgs.len() && builder_fails(#[trigger] pkgs[k], wr, wi) && x
                    == pkgs[k].id@ {
                let k = choose|k: int|
                    0 <= k < pkgs.len() && builder_fails(#[trigger] pkgs[k], wr, wi) && x
                        == pkgs[k].id@;
                if k < pkgs.len() - 1 {
                    assert(init[k] == pkgs[k]);
                    assert(fi.contains(x));
                    let q = choose|q: int| 0 <= q < fi.len() && fi[q] == x;
                    assert(f[q] == x);
                } else {
                    assert(f[f.len() - 1] == x);
                }
            }
        }
        if f.len() == 0 {
            assert forall|k: int| 0 <= k < pkgs.len() implies !builder_fails(
                #[trigger] pkgs[k],
                wr,
                wi,
            ) by {
                if builder_fails(pkgs[k], wr, wi) {
                    assert(f.contains(pkgs[k].id@));
                }
            }
        } else {
            let x = f[0];
            assert(f.contains(x));
        }
    }
}

/// The members among the first `j` packages are the first members.
proof fn lemma_members_prefix(packages: Seq<PackageManifest>, members: Seq<String>, j: int)
    requires
        0 <= j <= packages.len(),
    ensures
        member_manifests(packages.take(j), members).len() <= member_manifests(
            packages,
            members,
        ).len(),
        member_manifests(packages, members).take(
            member_manifests(packages.take(j), members).len() as int,
        ) == member_manifests(packages.take(j), members),
    decreases packages.len(),
{
    let all = member_manifests(packages, members);
    if j == packages.len() {
        assert(packages.take(j) =~= packages);
        assert(all.take(all.len() as int) =~= all);
    } else {
        let init = packages.drop_last();
        lemma_members_prefix(init, members, j);
        assert(init.take(j) =~= packages.take(j));
        let pre = member_manifests(packages.take(j), members);
        let mi = member_manifests(init, members);
        if all != mi {
            assert(all == mi.push(packages.last()));
            assert(all.take(pre.len() as int) =~= mi.take(pre.len() as int));
        }
    }
}

/// The members among the first `i + 1` packages: those among the first `i`, and
/// package `i` when it is listed.
proof fn lemma_members_step(packages: Seq<PackageManifest>, members: Seq<String>, i: int)
    requires
        0 <= i < packages.len(),
    ensures
        member_manifests(packages.take(i + 1), members) == if id_listed(members, packages[i].id@) {
            member_manifests(packages.take(i), members).push(packages[i])
        } else {
            member_manifests(packages.take(i), members)
        },
{
    assert(packages.take(i + 1).drop_last() =~= packages.take(i));
    assert(packages.take(i + 1).last() == packages[i]);
}

/// A listed package fits the builder after the members before it, when every
/// member does.
proof fn lemma_fit_prefix(
    packages: Seq<PackageManifest>,
    members: Seq<String>,
    i: int,
    wr: Seq<Reference>,
    wi: Seq<Reference>,
    s: Seq<Seq<char>>,
)
    requires
        0 <= i < packages.len(),
        id_listed(members, packages[i].id@),
        packages_fit(member_manifests(packages, members), wr, wi, s),
    ensures
        declared_names(packages[i].features@).no_duplicates(),
        builder_fits(packages[i], wr, wi, strings_after(member_manifests(packages.take(i), members), s)),
{
    let ms = member_manifests(packages, members);
    let mi = member_manifests(packages.take(i), members);
    let mn = member_manifests(packages.take(i + 1), members);
    lemma_members_step(packages, members, i);
    lemma_members_prefix(packages, members, i + 1);
    let k = mi.len() as int;
    assert(mn[k] == packages[i]);
    assert(ms.take(mn.len() as int)[k] == ms[k]);
    assert(ms[k] == packages[i]);
    assert(ms.take(k) =~= mn.take(k));
    assert(mn.take(k) =~= mi);
    assert(declared_names((ms[k]).features@).no_duplicates() && builder_fits(
        ms[k],
        wr,
        wi,
        strings_after(ms.take(k), s),
    ));
}

/// Adding a package that fits after the others keeps every package fitting.
proof fn lemma_fit_extend(
    mi: Seq<PackageManifest>,
    p: PackageManifest,
    wr: Seq<Reference>,
    wi: Seq<Reference>,
    s: Seq<Seq<char>>,
)
    requires
        packages_fit(mi, wr, wi, s),
        declared_names(p.features@).no_duplicates(),
        builder_fits(p, wr, wi, strings_after(mi, s)),
    ensures
        packages_fit(mi.push(p), wr, wi, s),
        strings_after(mi.push(p), s) == builder_strings(p, strings_after(mi, s)),
        failing_ids(mi.push(p), wr, wi) == if builder_fails(p, wr, wi) {
            failing_ids(mi, wr, wi).push(p.id@)
        } else {
            failing_ids(mi, wr, wi)
        },
{
    let mn = mi.push(p);
    assert(mn.drop_last() =~= mi);
    assert forall|k: int| 0 <= k < mn.len() implies declared_names(
        (#[trigger] mn[k]).features@,
    ).no_duplicates() && builder_fits(mn[k], wr, wi, strings_after(mn.take(k), s)) by {
        if k < mi.len() {
            assert(mn[k] == mi[k]);
            assert(mn.take(k) =~= mi.take(k));
        } else {
            assert(mn.take(k) =~= mi);
        }
    }
}

/// Whether the input stays within what assembling the workspace can take.
#[verifier::rlimit(80)]
pub fn fits_limits(
    packages: &Vec<PackageManifest>,
    members: &Vec<String>,
    root_id: &Option<String>,
    featurex: &Result<Option<FeaturexSection>, FeaturexMetadataError>,
) -> (r: bool)
    ensures
        r == workspace_fits(packages@, members@, *root_id, *featurex),
{
    let sec = match featurex {
        Err(_) => {
            return true;
        },
        Ok(sec) => sec,
    };
    let empty: Vec<String> = Vec::new();
    let (wr_list, wi_list) = section_lists(sec, &empty);
    let ghost wr = section_required(*sec);
    let ghost wi = section_ignored(*sec);
    let ghost ms = member_manifests(packages@, members@);
    let mut seen: Vec<String> = Vec::new();
    proof {
        assert(texts(seen@) =~= Seq::<Seq<char>>::empty());
    }
    add_bare_names(&mut seen, wr_list);
    add_bare_names(&mut seen, wi_list);
    if seen.len() > KEY_SPACE {
        return false;
    }
    let ghost s_ws = texts(seen@);
    let mut any_fails = false;
    let mut root_found = false;
    let mut i: usize = 0;
    proof {
        assert(packages@.take(0) =~= Seq::<PackageManifest>::empty());
    }
    while i < packages.len()
        invariant
            0 <= i <= packages@.len(),
            ms == member_manifests(packages@, members@),
            *featurex is Ok,
            (*featurex)->Ok_0 == *sec,
            wr == section_required(*sec),
            wi == section_ignored(*sec),
            wr == written_refs(wr_list@),
            wi == written_refs(wi_list@),
            s_ws == intern_section(Seq::empty(), *sec),
            section_fits(Seq::empty(), *sec),
            texts(seen@) == strings_after(member_manifests(packages@.take(i as int), members@), s_ws),
            texts(seen@).no_duplicates(),
            packages_fit(member_manifests(packages@.take(i as int), members@), wr, wi, s_ws),
            any_fails == (failing_ids(member_manifests(packages@.take(i as int), members@), wr, wi).len()
                > 0),
            root_found == (root_id matches Some(id) && exists|k: int|
                0 <= k < member_manifests(packages@.take(i as int), members@).len()
                    && (#[trigger] member_manifests(packages@.take(i as int), members@)[k]).id@
                    == id@),
        decreases packages@.len() - i,
    {
        let ghost mi = member_manifests(packages@.take(i as int), members@);
        let ghost mn = member_manifests(packages@.take(i as int + 1), members@);
        proof {
            lemma_members_step(packages@, members@, i as int);
        }
        let p = &packages[i];
        if lists_id(members, &p.id) {
            let ghost before = texts(seen@);
            let (ok, fails) = package_fits(p, &mut seen, wr_list, wi_list);
            if !ok {
                proof {
                    assert(*p == packages@[i as int]);
                    assert(before == strings_after(mi, s_ws));
                    if packages_fit(ms, wr, wi, s_ws) {
                        lemma_fit_prefix(packages@, members@, i as int, wr, wi, s_ws);
                        assert(false);
                    }
                    assert(!workspace_fits(packages@, members@, *root_id, *featurex));
                }
                return false;
            }
            proof {
                lemma_fit_extend(mi, *p, wr, wi, s_ws);
                if root_found {
                    let id = root_id->0;
                    let k = choose|k: int| 0 <= k < mi.len() && (#[trigger] mi[k]).id@ == id@;
                    assert(mn[k] == mi[k]);
                }
            }
            any_fails = any_fails || fails;
            match root_id {
                Some(id) => {
                    if p.id == *id {
                        proof {
                            assert(mn[mi.len() as int] == *p);
                        }
                        root_found = true;
                    } else if !root_found {
                        proof {
                            assert forall|k: int| 0 <= k < mn.len() implies (#[trigger] mn[k]).id@
                                != id@ by {
                                if k < mi.len() {
                                    assert(mn[k] == mi[k]);
                                }
                            }
                        }
                    }
                },
                None => {},
            }
        }
        i = i + 1;
    }
    proof {
        assert(packages@.take(packages@.len() as int) =~= packages@);
        match root_id {
            Some(id) => {
                lemma_id_position(ms, id@);
                if root_found {
                    let k = choose|k: int| 0 <= k < ms.len() && (#[trigger] ms[k]).id@ == id@;
                    assert(id_position(ms, id@) <= k);
                }
            },
            None => {},
        }
    }
    if !any_fails && root_id.is_some() && !root_found {
        return false;
    }
    true
}

} // verus!
