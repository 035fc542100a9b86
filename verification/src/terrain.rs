//! The kinds of terrain for which the rover knows a way across.

use crate::text::same_text;
use vstd::prelude::*;

verus! {

/// A kind of terrain that the rover can traverse.
#[derive(Clone, Copy, Debug, PartialEq, Eq)]
pub enum Terrain {
    Rocky,
    Sand,
}

/// The terrain that the word `name` stands for, if any.
pub open spec fn terrain_named(name: Seq<char>) -> Option<Terrain> {
    if name == "rocky"@ {
        Some(Terrain::Rocky)
    } else if name == "sand"@ {
        Some(Terrain::Sand)
    } else {
        None
    }
}

/// Reads a terrain kind from its name: `rocky` or `sand`. Any other word
/// names no known terrain.
pub fn classify_terrain(name: &str) -> (terrain: Option<Terrain>)
    ensures
        terrain == terrain_named(name@),
{
    if same_text(name, "rocky") {
        Some(Terrain::Rocky)
    } else if same_text(name, "sand") {
        Some(Terrain::Sand)
    } else {
        None
    }
}

} // verus!
