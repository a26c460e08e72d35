//! The string interner that feature names go through.
//!
//! Names are interned in a `lasso::Rodeo` with `MiniSpur` keys. The library
//! works with the key as a plain index: a `MiniSpur` stands for the position of
//! its string among the interned strings, in the order they were first interned.
use lasso::{Key, MiniSpur, Rodeo, RodeoReader};
use vstd::prelude::*;

verus! {

#[verifier::external_type_specification]
#[verifier::external_body]
#[verifier::reject_recursive_types(K)]
#[verifier::reject_recursive_types(S)]
pub struct ExRodeo<K, S>(Rodeo<K, S>);

#[verifier::external_type_specification]
#[verifier::external_body]
#[verifier::reject_recursive_types(K)]
#[verifier::reject_recursive_types(S)]
pub struct ExRodeoReader<K, S>(RodeoReader<K, S>);

#[verifier::external_type_specification]
#[verifier::external_body]
pub struct ExMiniSpur(MiniSpur);

/// The number of distinct strings a `MiniSpur` interner can hold: a key is made
/// from a position below `u16::MAX`.
pub const KEY_SPACE: usize = 65535;

/// The strings held by an interner, in the order of their keys.
pub uninterp spec fn interned(r: Rodeo<MiniSpur>) -> Seq<Seq<char>>;

/// The strings held by a read-only interner, in the order of their keys.
pub uninterp spec fn reader_strings(r: RodeoReader<MiniSpur>) -> Seq<Seq<char>>;

/// The key of `s` in `strings`: a position that holds `s`, the only one in an
/// interner, which holds each string once.
pub open spec fn key_of(strings: Seq<Seq<char>>, s: Seq<char>) -> int {
    strings.index_of(s)
}

/// An interner holds each string once, and no more than the key space allows.
pub open spec fn interner_wf(strings: Seq<Seq<char>>) -> bool {
    &&& strings.no_duplicates()
    &&& strings.len() <= KEY_SPACE
}

/// Interning `s` appends it unless it is already held.
pub open spec fn intern_spec(strings: Seq<Seq<char>>, s: Seq<char>) -> Seq<Seq<char>> {
    if strings.contains(s) {
        strings
    } else {
        strings.push(s)
    }
}

/// `lasso::Rodeo::new`: an interner that holds nothing.
#[verifier::external_body]
pub(crate) fn new_interner() -> (r: Rodeo<MiniSpur>)
    ensures
        interned(r) == Seq::<Seq<char>>::empty(),
{
    Rodeo::new()
}

/// `lasso::Rodeo::get_or_intern`: the key of `s`, interning it first when it is
/// new. A new string gets the next position as its key; the call panics when no
/// key is left, which `requires` rules out.
#[verifier::external_body]
pub(crate) fn intern(strings: &mut Rodeo<MiniSpur>, s: &str) -> (key: usize)
    requires
        interner_wf(interned(*old(strings))),
        interned(*old(strings)).contains(s@) || interned(*old(strings)).len() < KEY_SPACE,
    ensures
        interned(*final(strings)) == intern_spec(interned(*old(strings)), s@),
        interner_wf(interned(*final(strings))),
        key < interned(*final(strings)).len(),
        interned(*final(strings))[key as int] == s@,
{
    strings.get_or_intern(s).into_usize()
}

/// `lasso::Rodeo::get`: the key of `s` if it is interned.
#[verifier::external_body]
pub(crate) fn lookup(strings: &Rodeo<MiniSpur>, s: &str) -> (key: Option<usize>)
    ensures
        match key {
            Some(k) => k < interned(*strings).len() && interned(*strings)[k as int] == s@,
            None => !interned(*strings).contains(s@),
        },
{
    strings.get(s).map(|k| k.into_usize())
}

/// `lasso::Rodeo::into_reader`: a read-only interner holding the same strings
/// under the same keys.
#[verifier::external_body]
pub(crate) fn into_reader(strings: Rodeo<MiniSpur>) -> (r: RodeoReader<MiniSpur>)
    ensures
        reader_strings(r) == interned(strings),
{
    strings.into_reader()
}

/// `lasso::Rodeo::resolve`: the string held under `key`, turned back into a
/// `MiniSpur` as for [`resolve`].
#[verifier::external_body]
pub(crate) fn resolve_interned(strings: &Rodeo<MiniSpur>, key: usize) -> (s: &str)
    requires
        key < interned(*strings).len(),
        interned(*strings).len() <= KEY_SPACE,
    ensures
        s@ == interned(*strings)[key as int],
{
    strings.resolve(&MiniSpur::try_from_usize(key).unwrap())
}

/// `lasso::RodeoReader::get`: the key of `s` if it is interned.
#[verifier::external_body]
pub(crate) fn reader_lookup(strings: &RodeoReader<MiniSpur>, s: &str) -> (key: Option<usize>)
    ensures
        match key {
            Some(k) => k < reader_strings(*strings).len() && reader_strings(*strings)[k as int]
                == s@,
            None => !reader_strings(*strings).contains(s@),
        },
{
    strings.get(s).map(|k| k.into_usize())
}

/// `lasso::RodeoReader::resolve`: the string held under `key`. The key is turned
/// back into a `MiniSpur` by `Key::try_from_usize`, which succeeds below the key
/// space.
#[verifier::external_body]
pub(crate) fn resolve(strings: &RodeoReader<MiniSpur>, key: usize) -> (s: &str)
    requires
        key < reader_strings(*strings).len(),
        reader_strings(*strings).len() <= KEY_SPACE,
    ensures
        s@ == reader_strings(*strings)[key as int],
{
    strings.resolve(&MiniSpur::try_from_usize(key).unwrap())
}

/// `Rc::clone` on a shared read-only interner: the same interner.
#[verifier::external_body]
pub(crate) fn share(strings: &std::rc::Rc<RodeoReader<MiniSpur>>) -> (r: std::rc::Rc<
    RodeoReader<MiniSpur>,
>)
    ensures
        *r == **strings,
{
    std::rc::Rc::clone(strings)
}

} // verus!
