//! Fuzzy string matching with character n-grams.
use vstd::prelude::*;

pub mod text;
pub mod ngram;
pub mod interner;
pub mod corpus;
pub mod gram;
pub mod into_usize;
pub mod trigram_similarity;
pub mod similarity;
pub mod vec_bipartite_graph;
pub mod search;
pub mod underscored;
pub mod report;
pub mod arity;
pub mod offsettable;
pub mod key_transformers;
pub mod char_like;
pub mod char_normalizer;
pub mod adaptative_vector;
pub mod corpus_from;
pub mod key_graph;
pub mod key_graph_build;
pub mod gram_storage;
pub mod key_counts;
pub mod ascii_char;
pub mod ngrams;
pub mod rasterized;
pub mod weights;
pub mod warp;

verus! {

/// Determines how strings are padded before their grams are generated.
#[derive(Debug, Clone)]
pub enum Pad {
    /// No padding.
    NoPad,
    /// Pad with `arity - 1` space characters.
    Auto,
    /// Use the supplied string as padding.
    Pad(String),
}

impl Pad {
    /// The characters this padding adds on one side, for an automatic width `w`.
    pub open spec fn padding(&self, w: nat) -> Seq<char> {
        match self {
            Pad::NoPad => Seq::empty(),
            Pad::Auto => Seq::new(w, |i: int| ' '),
            Pad::Pad(s) => s@,
        }
    }

    /// Render this padding as a string, `autopad_width` spaces for `Auto`.
    pub fn to_string(&self, autopad_width: usize) -> (s: String)
        ensures
            s@ == self.padding(autopad_width as nat),
            *self is Auto ==> s@.len() == autopad_width && forall|i: int| 0 <= i < s@.len() ==> s@[i] == ' ',
            *self is NoPad ==> s@.len() == 0,
    {
        match self {
            Pad::Auto => text::spaces(autopad_width),
            Pad::Pad(p) => p.clone(),
            Pad::NoPad => String::new(),
        }
    }

    /// Render `text` with `pad_left` before it and `pad_right` after it.
    pub fn pad_text(text: &str, pad_left: Pad, pad_right: Pad, autopad_width: usize) -> (s: String)
        ensures
            s@ == pad_left.padding(autopad_width as nat) + text@ + pad_right.padding(
                autopad_width as nat,
            ),
    {
        let mut s = pad_left.to_string(autopad_width);
        s.append(text);
        let right = pad_right.to_string(autopad_width);
        s.append(right.as_str());
        s
    }

    /// An identical copy of this padding.
    pub(crate) fn copy(&self) -> (p: Pad)
        ensures
            p == *self,
    {
        match self {
            Pad::NoPad => Pad::NoPad,
            Pad::Auto => Pad::Auto,
            Pad::Pad(s) => Pad::Pad(s.clone()),
        }
    }
}

/// Automatic padding is `w` spaces: as many characters as the width, each a
/// space; no padding adds nothing, and a given padding adds that string.
pub proof fn lemma_auto_padding(w: nat, s: String)
    ensures
        Pad::Auto.padding(w).len() == w,
        forall|i: int| 0 <= i < w ==> #[trigger] Pad::Auto.padding(w)[i] == ' ',
        Pad::NoPad.padding(w).len() == 0,
        Pad::Pad(s).padding(w) == s@,
{
}

impl Default for Pad {
    /// `Auto`, which pads left and right with `arity - 1` spaces.
    fn default() -> (p: Self)
        ensures
            p == Pad::Auto,
    {
        Pad::Auto
    }
}

/// Key transformers rewrite keys before they are indexed or searched,
/// and are designed to be chained together.
pub trait KeyTransformer: Sized {
    /// What `transform` makes of a key.
    spec fn transformed(&self, key: Seq<char>) -> Seq<char>;

    /// Transform a key.
    fn transform(&self, key: &str) -> (r: String)
        ensures
            r@ == self.transformed(key@),
    ;

    /// Link this key transformer to another, which is applied after it.
    fn link<Dst>(self, dst: Dst) -> (r: LinkedKeyTransformer<Self, Dst>)
        ensures
            r.src_of() == self,
            r.dst_of() == dst,
    {
        LinkedKeyTransformer::new(self, dst)
    }

    /// Chain this key transformer with a lowercasing key transformer.
    fn lower(self) -> (r: LinkedKeyTransformer<Self, LowerKeyTransformer>)
        ensures
            r.src_of() == self,
    {
        self.link(LowerKeyTransformer)
    }
}

/// Identity key transformer.
#[derive(Debug, Clone, Copy, Eq, PartialEq, Default)]
pub struct IdentityKeyTransformer;

impl KeyTransformer for IdentityKeyTransformer {
    open spec fn transformed(&self, key: Seq<char>) -> Seq<char> {
        key
    }

    fn transform(&self, key: &str) -> (r: String) {
        String::from_str(key)
    }
}

/// Lowercasing key transformer.
#[derive(Debug, Clone, Copy, Eq, PartialEq, Default)]
pub struct LowerKeyTransformer;

impl KeyTransformer for LowerKeyTransformer {
    open spec fn transformed(&self, key: Seq<char>) -> Seq<char> {
        text::lowercase(key)
    }

    fn transform(&self, key: &str) -> (r: String) {
        text::to_lowercase(key)
    }
}

/// Linked key transformer: `src` first, then `dst`.
#[derive(Debug, Clone, Copy, Eq, PartialEq, Default)]
pub struct LinkedKeyTransformer<Src, Dst> {
    src: Src,
    dst: Dst,
}

impl<Src, Dst> LinkedKeyTransformer<Src, Dst> {
    /// The transformer applied first.
    pub closed spec fn src_of(self) -> Src {
        self.src
    }

    /// The transformer applied second.
    pub closed spec fn dst_of(self) -> Dst {
        self.dst
    }

    /// Create a new linked key transformer.
    pub fn new(src: Src, dst: Dst) -> (r: Self)
        ensures
            r.src_of() == src,
            r.dst_of() == dst,
    {
        LinkedKeyTransformer { src, dst }
    }

    /// The two linked key transformers, the one applied first first.
    pub fn into_parts(self) -> (r: (Src, Dst))
        ensures
            r.0 == self.src_of(),
            r.1 == self.dst_of(),
    {
        (self.src, self.dst)
    }
}

impl<Src: KeyTransformer, Dst: KeyTransformer> KeyTransformer for LinkedKeyTransformer<Src, Dst> {
    open spec fn transformed(&self, key: Seq<char>) -> Seq<char> {
        self.dst_of().transformed(self.src_of().transformed(key))
    }

    fn transform(&self, key: &str) -> (r: String) {
        let first = self.src.transform(key);
        self.dst.transform(first.as_str())
    }
}

} // verus!
