//! An alpha-carbon record as read from a structure file.
use vstd::prelude::*;

verus! {

/// One alpha-carbon atom; coordinates are in thousandths of an angstrom.
#[derive(Debug)]
pub struct CaAtom {
    pub serial: i32,
    pub atom_name: String,
    pub res_name: String,
    pub chain_id: char,
    pub res_seq: i32,
    pub x: i64,
    pub y: i64,
    pub z: i64,
}

impl CaAtom {
    pub fn new(
        serial: i32,
        atom_name: String,
        res_name: String,
        chain_id: char,
        res_seq: i32,
        x: i64,
        y: i64,
        z: i64,
    ) -> (r: CaAtom)
        ensures
            r.serial == serial,
            r.atom_name@ == atom_name@,
            r.res_name@ == res_name@,
            r.chain_id == chain_id,
            r.res_seq == res_seq,
            r.x == x,
            r.y == y,
            r.z == z,
    {
        CaAtom { serial, atom_name, res_name, chain_id, res_seq, x, y, z }
    }
}

} // verus!
