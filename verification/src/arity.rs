//! Struct markers for the arity of grams.
use vstd::prelude::*;

verus! {

/// Trait defining the arity of a struct.
///
/// The markers make illegal arities, such as zero, impossible to express.
pub trait Arity: Default + Clone + Copy + core::fmt::Debug {
    /// The arity of the struct.
    const ARITY: usize;
    /// The padding for the struct.
    const PADDING: Self::Gram;
    /// The type of the n-gram.
    type Gram: Copy;
}

/// Arity of one.
#[derive(Clone, Copy, Default, Debug)]
pub struct ArityOne;

/// Arity of two.
#[derive(Clone, Copy, Default, Debug)]
pub struct ArityTwo;

/// Arity of three.
#[derive(Clone, Copy, Default, Debug)]
pub struct ArityThree;

/// Arity of four.
#[derive(Clone, Copy, Default, Debug)]
pub struct ArityFour;

/// Arity of five.
#[derive(Clone, Copy, Default, Debug)]
pub struct ArityFive;

impl Arity for ArityOne {
    const ARITY: usize = 1;
    const PADDING: [u8; 1] = [32u8];
    type Gram = [u8; 1];
}

impl Arity for ArityTwo {
    const ARITY: usize = 2;
    const PADDING: [u8; 2] = [32u8, 32u8];
    type Gram = [u8; 2];
}

impl Arity for ArityThree {
    const ARITY: usize = 3;
    const PADDING: [u8; 3] = [32u8, 32u8, 32u8];
    type Gram = [u8; 3];
}

impl Arity for ArityFour {
    const ARITY: usize = 4;
    const PADDING: [u8; 4] = [32u8, 32u8, 32u8, 32u8];
    type Gram = [u8; 4];
}

impl Arity for ArityFive {
    const ARITY: usize = 5;
    const PADDING: [u8; 5] = [32u8, 32u8, 32u8, 32u8, 32u8];
    type Gram = [u8; 5];
}

} // verus!
