//! The `featurex` section of a package's or a workspace's metadata: which
//! features are always enabled (`required`) and which are never varied
//! (`ignored`). A name that ends in `?` may be missing from the package.
use crate::interner::{intern, intern_spec, interned, interner_wf, KEY_SPACE};
use lasso::{MiniSpur, Rodeo};
use vstd::prelude::*;

verus! {

/// The lists of the `featurex` section as they are written, before parsing.
pub struct FeaturexSection {
    pub required: Vec<String>,
    pub ignored: Vec<String>,
}

/// A feature named in the metadata, by the key of its interned name.
#[derive(Clone, Copy, PartialEq, Eq, Debug)]
pub enum FeatureName {
    /// The feature must exist in the package.
    Required(usize),
    /// The feature is used only if the package has it (written with a trailing `?`).
    Optional(usize),
}

/// The parsed `featurex` section.
pub struct FeaturexMetadata {
    pub required: Vec<FeatureName>,
    pub ignored: Vec<FeatureName>,
}

/// The `featurex` section could not be read.
#[derive(Debug)]
pub struct FeaturexMetadataError;

/// Whether a written name marks its feature as optional.
pub open spec fn is_optional(s: Seq<char>) -> bool {
    s.len() > 0 && s.last() == '?'
}

/// The feature name that a written name stands for.
pub open spec fn bare_name(s: Seq<char>) -> Seq<char> {
    if is_optional(s) {
        s.drop_last()
    } else {
        s
    }
}

/// The bare names of a list of written names.
pub open spec fn bare_names(names: Seq<String>) -> Seq<Seq<char>> {
    names.map_values(|s: String| bare_name(s@))
}

/// The interner after interning each of `names` in turn.
pub open spec fn intern_all(strings: Seq<Seq<char>>, names: Seq<Seq<char>>) -> Seq<Seq<char>>
    decreases names.len(),
{
    if names.len() == 0 {
        strings
    } else {
        intern_all(intern_spec(strings, names[0]), names.drop_first())
    }
}

impl FeatureName {
    /// The key of the named feature.
    pub open spec fn key(self) -> usize {
        match self {
            FeatureName::Required(k) => k,
            FeatureName::Optional(k) => k,
        }
    }

    /// Whether the name came from `written` by the parsing rule, under the
    /// interner `strings`.
    pub open spec fn parsed_from(self, written: Seq<char>, strings: Seq<Seq<char>>) -> bool {
        &&& (self is Optional <==> is_optional(written))
        &&& self.key() < strings.len()
        &&& strings[self.key() as int] == bare_name(written)
    }
}

/// Each parsed name comes from the written name at the same position.
pub open spec fn parsed_list(
    parsed: Seq<FeatureName>,
    written: Seq<String>,
    strings: Seq<Seq<char>>,
) -> bool {
    &&& parsed.len() == written.len()
    &&& forall|i: int| 0 <= i < parsed.len() ==> (#[trigger] parsed[i]).parsed_from(written[i]@, strings)
}

/// `str::strip_suffix` with the suffix `?`: the string without its last `?`.
#[verifier::external_body]
pub(crate) fn strip_question_mark(s: &str) -> (r: Option<&str>)
    ensures
        r is Some <==> is_optional(s@),
        r matches Some(t) ==> t@ == s@.drop_last(),
{
    s.strip_suffix('?')
}

pub proof fn lemma_intern_all_grows(strings: Seq<Seq<char>>, names: Seq<Seq<char>>)
    ensures
        strings.len() <= intern_all(strings, names).len(),
        forall|i: int| 0 <= i < strings.len() ==> intern_all(strings, names)[i] == strings[i],
    decreases names.len(),
{
    if names.len() > 0 {
        let s1 = intern_spec(strings, names[0]);
        assert(forall|i: int| 0 <= i < strings.len() ==> s1[i] == strings[i]);
        lemma_intern_all_grows(s1, names.drop_first());
    }
}

pub proof fn lemma_intern_all_step(strings: Seq<Seq<char>>, names: Seq<Seq<char>>, n: int)
    requires
        0 <= n < names.len(),
    ensures
        intern_all(strings, names.take(n + 1)) == intern_spec(
            intern_all(strings, names.take(n)),
            names[n],
        ),
    decreases n,
{
    let s1 = intern_spec(strings, names[0]);
    if n == 0 {
        assert(names.take(1).drop_first() =~= Seq::<Seq<char>>::empty());
        assert(names.take(0) =~= Seq::<Seq<char>>::empty());
        assert(intern_all(s1, Seq::<Seq<char>>::empty()) == s1);
        assert(intern_all(strings, names.take(1)) == intern_all(s1, names.take(1).drop_first()));
    } else {
        let rest = names.drop_first();
        lemma_intern_all_step(s1, rest, n - 1);
        assert(names.take(n + 1).drop_first() =~= rest.take(n));
        assert(names.take(n).drop_first() =~= rest.take(n - 1));
        assert(names.take(n + 1)[0] == names[0]);
        assert(names.take(n)[0] == names[0]);
        assert(intern_all(strings, names.take(n + 1)) == intern_all(s1, rest.take(n)));
        assert(intern_all(strings, names.take(n)) == intern_all(s1, rest.take(n - 1)));
    }
}

/// Parses written feature names: a trailing `?` makes a name optional and is not
/// part of it. Each bare name is interned, in order.
pub fn parse_features(features: &Vec<String>, strings: &mut Rodeo<MiniSpur>) -> (r: Vec<
    FeatureName,
>)
    requires
        interner_wf(interned(*old(strings))),
        intern_all(interned(*old(strings)), bare_names(features@)).len() <= KEY_SPACE,
    ensures
        interned(*final(strings)) == intern_all(interned(*old(strings)), bare_names(features@)),
        interner_wf(interned(*final(strings))),
        parsed_list(r@, features@, interned(*final(strings))),
{
    let ghost start = interned(*strings);
    let ghost names = bare_names(features@);
    let mut parsed: Vec<FeatureName> = Vec::new();
    let mut i: usize = 0;
    while i < features.len()
        invariant
            0 <= i <= features.len(),
            names == bare_names(features@),
            names.len() == features.len(),
            interned(*strings) == intern_all(start, names.take(i as int)),
            interner_wf(interned(*strings)),
            intern_all(start, names).len() <= KEY_SPACE,
            parsed@.len() == i,
            forall|j: int|
                0 <= j < i ==> (#[trigger] parsed@[j]).parsed_from(
                    features@[j]@,
                    interned(*strings),
                ),
        decreases features.len() - i,
    {
        let feature: &String = &features[i];
        proof {
            lemma_intern_all_step(start, names, i as int);
            assert(names.take(i as int).len() == i);
            let rest = names.skip(i as int + 1);
            assert(names =~= names.take(i as int + 1) + rest);
            lemma_intern_all_split(start, names.take(i as int + 1), rest);
            lemma_intern_all_grows(intern_all(start, names.take(i as int + 1)), rest);
        }
        let ghost before = interned(*strings);
        let name = match strip_question_mark(feature.as_str()) {
            Some(bare) => {
                let key = intern(strings, bare);
                FeatureName::Optional(key)
            },
            None => {
                let key = intern(strings, feature.as_str());
                FeatureName::Required(key)
            },
        };
        proof {
            assert forall|j: int| 0 <= j < i implies (#[trigger] parsed@[j]).parsed_from(
                features@[j]@,
                interned(*strings),
            ) by {
                assert(parsed@[j].parsed_from(features@[j]@, before));
            }
        }
        parsed.push(name);
        i = i + 1;
    }
    proof {
        assert(names.take(features@.len() as int) =~= names);
    }
    parsed
}

pub proof fn lemma_intern_all_split(
    strings: Seq<Seq<char>>,
    first: Seq<Seq<char>>,
    second: Seq<Seq<char>>,
)
    ensures
        intern_all(strings, first + second) == intern_all(intern_all(strings, first), second),
    decreases first.len(),
{
    if first.len() == 0 {
        assert(first + second =~= second);
    } else {
        lemma_intern_all_split(intern_spec(strings, first[0]), first.drop_first(), second);
        assert((first + second).drop_first() =~= first.drop_first() + second);
        assert((first + second)[0] == first[0]);
    }
}

impl FeaturexMetadata {
    /// No required and no ignored features.
    pub fn empty() -> (r: Self)
        ensures
            r.required@.len() == 0,
            r.ignored@.len() == 0,
    {
        FeaturexMetadata { required: Vec::new(), ignored: Vec::new() }
    }

    /// Parses a `featurex` section: its absence means no required and no ignored
    /// features; otherwise the `required` list, then the `ignored` list, is parsed.
    pub fn from_featurex_metadata(
        metadata: &Option<FeaturexSection>,
        strings: &mut Rodeo<MiniSpur>,
    ) -> (r: Self)
        requires
            interner_wf(interned(*old(strings))),
            section_fits(interned(*old(strings)), *metadata),
        ensures
            interner_wf(interned(*final(strings))),
            interned(*final(strings)) == intern_section(interned(*old(strings)), *metadata),
            match *metadata {
                None => r.required@.len() == 0 && r.ignored@.len() == 0,
                Some(m) => parsed_list(r.required@, m.required@, interned(*final(strings)))
                    && parsed_list(r.ignored@, m.ignored@, interned(*final(strings))),
            },
    {
        match metadata {
            None => FeaturexMetadata::empty(),
            Some(value) => {
                let ghost start = interned(*strings);
                proof {
                    lemma_intern_all_grows(
                        intern_all(start, bare_names(value.required@)),
                        bare_names(value.ignored@),
                    );
                }
                let required = parse_features(&value.required, strings);
                let ghost mid = interned(*strings);
                let ignored = parse_features(&value.ignored, strings);
                proof {
                    lemma_intern_all_grows(mid, bare_names(value.ignored@));
                    assert forall|i: int| 0 <= i < required@.len() implies (#[trigger] required@[
                        i
                    ]).parsed_from(value.required@[i]@, interned(*strings)) by {
                        assert(required@[i].parsed_from(value.required@[i]@, mid));
                    }
                }
                FeaturexMetadata { required, ignored }
            },
        }
    }
}

/// The interner after parsing a `featurex` section.
pub open spec fn intern_section(strings: Seq<Seq<char>>, metadata: Option<FeaturexSection>) -> Seq<
    Seq<char>,
> {
    match metadata {
        None => strings,
        Some(m) => intern_all(
            intern_all(strings, bare_names(m.required@)),
            bare_names(m.ignored@),
        ),
    }
}

/// Parsing a `featurex` section leaves the interner within its key space.
pub open spec fn section_fits(strings: Seq<Seq<char>>, metadata: Option<FeaturexSection>) -> bool {
    intern_section(strings, metadata).len() <= KEY_SPACE
}

} // verus!
