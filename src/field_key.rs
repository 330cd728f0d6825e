//! Store keys for the fields of a field map: the map's key, a fixed
//! separator, then the field name, so that all fields of one map share a
//! prefix and can be listed by a prefix scan.
use vstd::prelude::*;

use crate::codec::write_bytes;

verus! {

/// The bytes between a map's key and a field name: `:__`.
pub open spec fn field_separator() -> Seq<u8> {
    seq![0x3Au8, 0x5Fu8, 0x5Fu8]
}

/// The store key of `field` in the map stored under `key`; with an empty
/// `field` it is the prefix shared by all fields of that map.
pub fn make_key(key: &[u8], field: &[u8]) -> (r: Vec<u8>)
    ensures
        r@ == key@ + field_separator() + field@,
{
    let mut out: Vec<u8> = Vec::new();
    write_bytes(&mut out, key);
    // ':' then '_' twice
    out.push(0x3Au8);
    out.push(0x5Fu8);
    out.push(0x5Fu8);
    write_bytes(&mut out, field);
    assert(out@ =~= key@ + field_separator() + field@);
    out
}

} // verus!
