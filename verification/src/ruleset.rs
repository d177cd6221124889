//! The static adjacency-compatibility table: tile id -> set of tile ids
//! permitted as a cardinal neighbor of that id.
//!
//! A lookup is directed: `v` appearing in `rules[a]` does not imply that `a`
//! appears in `rules[v]`; the shipped table is not required to be symmetric.

use std::collections::HashMap;
use vstd::prelude::*;

verus! {

/// Builds the fixed adjacency ruleset for the shipped six-tile deployment.
pub fn get_ruleset() -> (r: HashMap<usize, Vec<usize>>)
    ensures
        r@.dom() =~= set![1usize, 2usize, 3usize, 4usize, 5usize, 6usize],
        r@[1]@ == seq![1usize, 2usize, 3usize],
        r@[2]@ == seq![1usize, 2usize, 3usize],
        r@[3]@ == seq![1usize, 2usize, 3usize, 4usize],
        r@[4]@ == seq![1usize, 3usize, 4usize, 5usize],
        r@[5]@ == seq![4usize, 5usize, 6usize],
        r@[6]@ == seq![5usize, 6usize],
{
    let mut rules: HashMap<usize, Vec<usize>> = HashMap::new();
    rules.insert(1, vec![1, 2, 3]);
    rules.insert(2, vec![1, 2, 3]);
    rules.insert(3, vec![1, 2, 3, 4]);
    rules.insert(4, vec![1, 3, 4, 5]);
    rules.insert(5, vec![4, 5, 6]);
    rules.insert(6, vec![5, 6]);
    rules
}

} // verus!
