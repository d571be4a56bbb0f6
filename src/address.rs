//! Whether a legacy address belongs to an extended public key.
//!
//! The address is rebuilt from the key, as a single-key address that carries
//! the attributes of the candidate address; it belongs to the key when the
//! rebuilt address is the candidate, byte for byte. Parsing the key and
//! rebuilding the address happen before the check, which gets the outcome.
use vstd::prelude::*;

verus! {

/// The legacy address `address` belongs to the key from which `rebuilt` was
/// computed: the key parsed (`rebuilt` holds the rebuilt address) and the
/// rebuilt address is `address`, byte for byte. A key that did not parse is
/// `None`, and owns no address.
pub open spec fn is_owned(address: Seq<u8>, rebuilt: Option<Seq<u8>>) -> bool {
    match rebuilt {
        Some(a) => a == address,
        None => false,
    }
}

/// Whether `a` and `b` hold the same bytes.
pub fn same_bytes(a: &[u8], b: &[u8]) -> (r: bool)
    ensures
        r == (a@ == b@),
{
    if a.len() != b.len() {
        return false;
    }
    let mut i: usize = 0;
    while i < a.len()
        invariant
            a@.len() == b@.len(),
            i <= a@.len(),
            a@.subrange(0, i as int) == b@.subrange(0, i as int),
        decreases a@.len() - i,
    {
        if a[i] != b[i] {
            assert(a@.subrange(0, i + 1)[i as int] != b@.subrange(0, i + 1)[i as int]);
            return false;
        }
        assert(a@.subrange(0, i + 1) =~= a@.subrange(0, i as int).push(a@[i as int]));
        assert(b@.subrange(0, i + 1) =~= b@.subrange(0, i as int).push(b@[i as int]));
        i = i + 1;
    }
    assert(a@.subrange(0, i as int) =~= a@);
    assert(b@.subrange(0, i as int) =~= b@);
    true
}

/// Whether the legacy address `address` belongs to the extended public key
/// from which `rebuilt` was computed. `rebuilt` is `None` where the key bytes
/// did not parse, and otherwise the address rebuilt from the key and the
/// attributes of `address`. Never fails: a key that does not parse owns no
/// address.
pub fn oldaddress_from_xpub(address: &[u8], rebuilt: &Option<Vec<u8>>) -> (r: bool)
    ensures
        r == is_owned(address@, match rebuilt {
            Some(a) => Some(a@),
            None => None,
        }),
{
    match rebuilt {
        Some(a) => same_bytes(a.as_slice(), address),
        None => false,
    }
}

} // verus!
