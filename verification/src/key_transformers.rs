//! Linkable key transformers.
use vstd::prelude::*;
use vstd::string::StringExecFns;

use crate::char_normalizer::{strip_left, strip_right, trim};
use crate::text;

verus! {

/// Trait for key transformers.
///
/// Key transformers are used to transform keys before they are used in a map,
/// and are designed to be chained together.
pub trait KeyTransformer: Sized {
    /// What `transform` makes of a key.
    spec fn transformed(&self, key: Seq<char>) -> Seq<char>;

    /// Transform a key.
    fn transform(&self, key: &str) -> (r: String)
        ensures
            r@ == self.transformed(key@),
    ;

    /// Link this key transformer to another, which is applied after it.
    fn link<Dst>(self, dst: Dst) -> (r: Linked<Self, Dst>)
        ensures
            r.src_of() == self,
            r.dst_of() == dst,
    {
        Linked::new(self, dst)
    }

    /// Chain this key transformer with a lowercasing key transformer.
    fn lower(self) -> (r: Linked<Self, Lower>)
        ensures
            r.src_of() == self,
    {
        self.link(Lower)
    }
}

/// Identity key transformer.
#[derive(Debug, Clone, Copy, Eq, PartialEq, Default)]
pub struct Identity;

impl KeyTransformer for Identity {
    open spec fn transformed(&self, key: Seq<char>) -> Seq<char> {
        key
    }

    fn transform(&self, key: &str) -> (r: String) {
        String::from_str(key)
    }
}

/// Lowercasing key transformer.
#[derive(Debug, Clone, Copy, Eq, PartialEq, Default)]
pub struct Lower;

impl KeyTransformer for Lower {
    open spec fn transformed(&self, key: Seq<char>) -> Seq<char> {
        text::lowercase(key)
    }

    fn transform(&self, key: &str) -> (r: String) {
        text::to_lowercase(key)
    }
}

/// Key transformer adding the same padding to both sides of the key.
#[derive(Debug, Clone, Eq, PartialEq, Default)]
pub struct PadBoth {
    padding: String,
}

impl PadBoth {
    /// The padding added on each side.
    pub closed spec fn padding_of(&self) -> Seq<char> {
        self.padding@
    }

    /// A transformer that adds `padding` on both sides of the key.
    pub fn new(padding: &str) -> (r: Self)
        ensures
            r.padding_of() == padding@,
    {
        PadBoth { padding: String::from_str(padding) }
    }
}

impl KeyTransformer for PadBoth {
    open spec fn transformed(&self, key: Seq<char>) -> Seq<char> {
        self.padding_of() + key + self.padding_of()
    }

    fn transform(&self, key: &str) -> (r: String) {
        let mut out = String::from_str(self.padding.as_str());
        out.append(key);
        out.append(self.padding.as_str());
        out
    }
}

/// Trim key transformer: drops the whitespace at both ends of the key.
#[derive(Debug, Clone, Copy, Eq, PartialEq, Default)]
pub struct Trim;

impl KeyTransformer for Trim {
    open spec fn transformed(&self, key: Seq<char>) -> Seq<char> {
        strip_right(strip_left(key, false), false)
    }

    fn transform(&self, key: &str) -> (r: String) {
        let chars = text::chars_of(key);
        let kept = trim(&chars);
        text::string_of(&kept)
    }
}

/// Linked key transformer: `src` first, then `dst`.
#[derive(Debug, Clone, Copy, Eq, PartialEq, Default)]
pub struct Linked<Src, Dst> {
    src: Src,
    dst: Dst,
}

impl<Src, Dst> Linked<Src, Dst> {
    /// The transformer applied first.
    pub closed spec fn src_of(self) -> Src {
        self.src
    }

    /// The transformer applied second.
    pub closed spec fn dst_of(self) -> Dst {
        self.dst
    }

    /// Create a new linked key transformer.
    ///
    /// # Arguments
    /// * `src` - The source key transformer.
    /// * `dst` - The destination key transformer.
    pub fn new(src: Src, dst: Dst) -> (r: Self)
        ensures
            r.src_of() == src,
            r.dst_of() == dst,
    {
        Linked { src, dst }
    }
}

impl<Src: KeyTransformer, Dst: KeyTransformer> KeyTransformer for Linked<Src, Dst> {
    open spec fn transformed(&self, key: Seq<char>) -> Seq<char> {
        self.dst_of().transformed(self.src_of().transformed(key))
    }

    fn transform(&self, key: &str) -> (r: String)
        ensures
            r@ == self.dst_of().transformed(self.src_of().transformed(key@)),
    {
        let first = self.src.transform(key);
        self.dst.transform(first.as_str())
    }
}

/// A linked transformer applies its source transformer first and its
/// destination transformer to what that gives.
pub proof fn lemma_linked_src_then_dst<Src: KeyTransformer, Dst: KeyTransformer>(
    linked: Linked<Src, Dst>,
    key: Seq<char>,
)
    ensures
        linked.transformed(key) == linked.dst_of().transformed(linked.src_of().transformed(key)),
{
}

/// Padding on both sides puts the padding before the key and again after
/// it, the key unchanged between them.
pub proof fn lemma_pad_both_sides(pad: PadBoth, key: Seq<char>)
    ensures
        ({
            let p = pad.padding_of();
            let r = pad.transformed(key);
            let (lp, lk) = (p.len() as int, key.len() as int);
            &&& r.len() == lk + 2 * lp
            &&& r.subrange(0, lp) == p
            &&& r.subrange(lp, lp + lk) == key
            &&& r.subrange(lp + lk, r.len() as int) == p
        }),
{
    let p = pad.padding_of();
    let r = pad.transformed(key);
    let (lp, lk) = (p.len() as int, key.len() as int);
    assert(r.subrange(0, lp) =~= p);
    assert(r.subrange(lp, lp + lk) =~= key);
    assert(r.subrange(lp + lk, r.len() as int) =~= p);
}

/// Trimming and then padding pads the trimmed key: the padding lands
/// outside, not inside, whatever whitespace the key had at its ends.
pub proof fn lemma_trim_then_pad(linked: Linked<Trim, PadBoth>, key: Seq<char>)
    ensures
        linked.transformed(key) == linked.dst_of().padding_of() + strip_right(strip_left(key, false), false)
            + linked.dst_of().padding_of(),
{
}

} // verus!
