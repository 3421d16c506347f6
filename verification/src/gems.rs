//! Gem categories, gem values, and random sampling of categories.

use vstd::prelude::*;

verus! {

/// How many gem categories exist.
pub const GEM_TYPE_COUNT: u8 = 6;

/// The six categories a gem can belong to.
#[derive(Clone, Copy, PartialEq, Eq, Structural, Debug)]
pub enum GemType {
    Red,
    Pink,
    Blue,
    Green,
    Yellow,
    Orange,
}

impl GemType {
    /// The category that a sampling index below [`GEM_TYPE_COUNT`] stands for.
    pub open spec fn spec_from_index(i: int) -> GemType {
        if i == 0 {
            GemType::Red
        } else if i == 1 {
            GemType::Pink
        } else if i == 2 {
            GemType::Blue
        } else if i == 3 {
            GemType::Green
        } else if i == 4 {
            GemType::Yellow
        } else {
            GemType::Orange
        }
    }

    /// Decodes a sampling index into its category.
    pub fn from_index(i: u8) -> (g: GemType)
        requires
            i < GEM_TYPE_COUNT,
        ensures
            g == GemType::spec_from_index(i as int),
    {
        match i {
            0 => GemType::Red,
            1 => GemType::Pink,
            2 => GemType::Blue,
            3 => GemType::Green,
            4 => GemType::Yellow,
            _ => GemType::Orange,
        }
    }
}

/// A gem: a logical identity, by which the presentation layer finds the visual
/// object it bound to this gem, plus a category.
#[derive(Clone, Copy, PartialEq, Eq, Structural, Debug)]
pub struct Gem {
    pub id: u64,
    pub gem_type: GemType,
}

/// Relies on `rand::Rng::gen_range` on the generator from `rand::thread_rng`:
/// the result of `gen_range(low..high)` lies in `low..high` (it panics only on
/// an empty range, and `0..GEM_TYPE_COUNT` is not empty).
#[verifier::external_body]
fn random_gem_index() -> (i: u8)
    ensures
        i < GEM_TYPE_COUNT,
{
    rand::Rng::gen_range(&mut rand::thread_rng(), 0..GEM_TYPE_COUNT)
}

/// Uniform random sampling of gem categories from the process-wide random
/// source.
pub struct GemPalette;

impl GemPalette {
    /// Draws one category at random. The draw is uniform over the six
    /// categories as far as the random source is; being random, the result
    /// itself is not pinned down by any contract.
    pub fn sample_random() -> GemType {
        GemType::from_index(random_gem_index())
    }
}

} // verus!
