//! The paths routed so far, by the raw points of their endpoints.

use vstd::prelude::*;
use std::collections::HashMap;
use crate::path::PathWithEndpoints;
use crate::raw_area::RawPoint;

verus! {

broadcast use vstd::std_specs::hash::group_hash_axioms;

/// One number for a pair of raw points.
pub open spec fn key_code(key: (RawPoint, RawPoint)) -> u64 {
    ((key.0).0 as int * 0x1_0000_0000 + (key.1).0 as int) as u64
}

/// Two pairs of raw points with the same number are the same pair.
pub proof fn lemma_key_code_injective(a: (RawPoint, RawPoint), b: (RawPoint, RawPoint))
    requires
        key_code(a) == key_code(b),
    ensures
        a == b,
{
}

/// The routed paths, one for each pair of endpoints.
pub struct PathTable {
    pub paths: HashMap<u64, PathWithEndpoints>,
}

impl View for PathTable {
    type V = Map<u64, PathWithEndpoints>;

    open spec fn view(&self) -> Map<u64, PathWithEndpoints> {
        self.paths@
    }
}

impl PathTable {
    pub fn new() -> (t: PathTable)
        ensures
            t@ == Map::<u64, PathWithEndpoints>::empty(),
    {
        PathTable { paths: HashMap::new() }
    }

    /// Stores the path of a pair of endpoints in place of any earlier one.
    pub fn insert(&mut self, key: (RawPoint, RawPoint), path: PathWithEndpoints)
        ensures
            final(self)@ == old(self)@.insert(key_code(key), path),
    {
        let start = key.0;
        let end = key.1;
        let code: u64 = (start.0 as u64) * 0x1_0000_0000 + (end.0 as u64);
        self.paths.insert(code, path);
    }

    /// The path stored for a pair of endpoints.
    pub fn get(&self, key: (RawPoint, RawPoint)) -> (r: Option<&PathWithEndpoints>)
        ensures
            r is Some <==> self@.contains_key(key_code(key)),
            r is Some ==> *r.unwrap() == self@[key_code(key)],
    {
        let start = key.0;
        let end = key.1;
        let code: u64 = (start.0 as u64) * 0x1_0000_0000 + (end.0 as u64);
        self.paths.get(&code)
    }
}

} // verus!
