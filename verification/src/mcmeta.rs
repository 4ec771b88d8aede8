//! The resource-pack descriptor written beside the translated output.

use vstd::prelude::*;

verus! {

#[derive(Debug)]
pub struct PackInfo {
    pub pack_format: i32,
    pub description: String,
}

#[derive(Debug)]
pub struct Mcmeta {
    pub pack: PackInfo,
}

impl Mcmeta {
    pub fn new(pack_format: i32, description: String) -> (r: Mcmeta)
        ensures
            r.pack.pack_format == pack_format,
            r.pack.description@ == description@,
    {
        Mcmeta { pack: PackInfo { pack_format, description } }
    }
}

} // verus!
