//! Fixed-size grams.
use vstd::prelude::*;

verus! {

/// Type alias for a monogram.
pub type MonoGram<T> = [T; 1];

/// Type alias for a bigram.
pub type BiGram<T> = [T; 2];

/// Type alias for a trigram.
pub type TriGram<T> = [T; 3];

/// Type alias for a tetragram.
pub type TetraGram<T> = [T; 4];

/// Type alias for a pentagram.
pub type PentaGram<T> = [T; 5];

/// Type alias for a hexagram.
pub type HexaGram<T> = [T; 6];

/// Type alias for a heptagram.
pub type HeptaGram<T> = [T; 7];

/// Type alias for an octagram.
pub type OctaGram<T> = [T; 8];

} // verus!
