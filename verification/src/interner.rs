//! The string interner that gives every distinct string of a corpus a
//! small integer symbol.
use vstd::prelude::*;

use string_interner::{DefaultBackend, DefaultSymbol, StringInterner, Symbol};

verus! {

/// A `StringInterner` with the default backend and hasher. Its contents are
/// described by `interned`, and it is reached only through the functions
/// below, whose contracts say what each does to those contents.
#[verifier::external_body]
#[derive(Debug)]
pub struct Interner {
    inner: StringInterner<DefaultBackend>,
}

/// The interned strings, in the order of their symbols: the string with
/// symbol index `i` is `interned(s)[i]`.
pub uninterp spec fn interned(s: Interner) -> Seq<Seq<char>>;

/// `StringInterner::default`: an interner holding no string.
#[verifier::external_body]
pub(crate) fn interner_new() -> (r: Interner)
    ensures
        interned(r) == Seq::<Seq<char>>::empty(),
{
    Interner { inner: StringInterner::default() }
}

/// `StringInterner::len`: the number of interned strings.
#[verifier::external_body]
pub(crate) fn interner_len(interner: &Interner) -> (n: usize)
    ensures
        n == interned(*interner).len(),
{
    interner.inner.len()
}

/// `StringInterner::get_or_intern`, with the symbol given by its index
/// (`Symbol::to_usize`). A string already interned keeps its symbol and
/// leaves the interner as it was; a new string is appended and gets the next
/// index. The interner panics when it would need a symbol beyond the range of
/// `u32`, which the precondition rules out.
#[verifier::external_body]
pub(crate) fn intern(interner: &mut Interner, s: &str) -> (sym: usize)
    requires
        interned(*old(interner)).contains(s@) || interned(*old(interner)).len() < u32::MAX,
    ensures
        interned(*old(interner)).contains(s@) ==> {
            &&& interned(*final(interner)) == interned(*old(interner))
            &&& sym < interned(*old(interner)).len()
            &&& interned(*old(interner))[sym as int] == s@
        },
        !interned(*old(interner)).contains(s@) ==> {
            &&& interned(*final(interner)) == interned(*old(interner)).push(s@)
            &&& sym == interned(*old(interner)).len()
        },
{
    interner.inner.get_or_intern(s).to_usize()
}

/// `StringInterner::get`, with the symbol given by its index: the symbol of
/// `s` when it was interned, else nothing.
#[verifier::external_body]
pub(crate) fn lookup(interner: &Interner, s: &str) -> (r: Option<usize>)
    ensures
        r is None <==> !interned(*interner).contains(s@),
        r matches Some(i) ==> i < interned(*interner).len() && interned(*interner)[i as int] == s@,
{
    interner.inner.get(s).map(|sym| sym.to_usize())
}

/// `StringInterner::resolve` on the symbol of index `i`
/// (`Symbol::try_from_usize`), copied into an owned string.
#[verifier::external_body]
pub(crate) fn resolve(interner: &Interner, i: usize) -> (r: Option<String>)
    requires
        i < u32::MAX,
    ensures
        r is Some == (i < interned(*interner).len()),
        r is Some ==> r.unwrap()@ == interned(*interner)[i as int],
{
    DefaultSymbol::try_from_usize(i).and_then(|sym| interner.inner.resolve(sym)).map(|t| t.to_owned())
}

} // verus!
