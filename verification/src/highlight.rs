//! Highlight maps: which bars are marked, and how strongly.

use vstd::prelude::*;
use std::collections::HashMap;
use crate::ratio::{Frac, Ratio};

verus! {

/// The mathematical content of a highlight map: each marked index with the
/// value of its intensity.
pub open spec fn fracs(m: Map<usize, Ratio>) -> Map<usize, Frac> {
    m.map_values(|r: Ratio| r@)
}

/// The intensity of the index `i` in the map `m`: the entry where there is
/// one, and zero where there is none.
pub open spec fn intensity(m: Map<usize, Frac>, i: int) -> Frac {
    if 0 <= i <= usize::MAX && m.contains_key(i as usize) {
        m[i as usize]
    } else {
        Frac { num: 0, den: 1 }
    }
}

/// Looks an index up in a highlight map; a missing index has intensity zero.
pub fn intensity_of(highlights: &HashMap<usize, Ratio>, idx: usize) -> (r: Ratio)
    ensures
        r@ == intensity(fracs(highlights@), idx as int),
{
    match highlights.get(&idx) {
        Some(value) => *value,
        None => Ratio::zero(),
    }
}

/// Adding an entry to a highlight map adds its value to the map's content.
pub proof fn lemma_fracs_insert(m: Map<usize, Ratio>, idx: usize, value: Ratio)
    ensures
        fracs(m.insert(idx, value)) == fracs(m).insert(idx, value@),
{
    assert(fracs(m.insert(idx, value)) =~= fracs(m).insert(idx, value@));
}

/// Removing an entry from a highlight map removes it from the map's content.
pub proof fn lemma_fracs_remove(m: Map<usize, Ratio>, idx: usize)
    ensures
        fracs(m.remove(idx)) == fracs(m).remove(idx),
{
    assert(fracs(m.remove(idx)) =~= fracs(m).remove(idx));
}

} // verus!
