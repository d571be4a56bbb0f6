use mockchain_legacy::address::{oldaddress_from_xpub, same_bytes};

fn legacy_address() -> Vec<u8> {
    vec![0x82, 0xd8, 0x18, 0x58, 0x21, 0x83, 0x58, 0x1c, 0x10, 0x20, 0x30]
}

#[test]
fn rebuilt_address_equal_to_candidate_is_owned() {
    let address = legacy_address();
    assert!(oldaddress_from_xpub(&address, &Some(legacy_address())));
}

#[test]
fn address_rebuilt_from_other_key_is_not_owned() {
    let address = legacy_address();
    let mut other = legacy_address();
    other[9] ^= 0x01;
    assert!(!oldaddress_from_xpub(&address, &Some(other)));
}

#[test]
fn unparsable_key_owns_nothing() {
    let address = legacy_address();
    assert!(!oldaddress_from_xpub(&address, &None));
    assert!(!oldaddress_from_xpub(&[], &None));
}

#[test]
fn prefix_is_not_a_match() {
    let address = legacy_address();
    let prefix = address[..address.len() - 1].to_vec();
    assert!(!oldaddress_from_xpub(&address, &Some(prefix.clone())));
    assert!(!oldaddress_from_xpub(&prefix, &Some(address)));
}

#[test]
fn same_bytes_compares_every_byte() {
    assert!(same_bytes(&[], &[]));
    assert!(same_bytes(&[1, 2, 3], &[1, 2, 3]));
    assert!(!same_bytes(&[1, 2, 3], &[1, 2, 4]));
    assert!(!same_bytes(&[1, 2], &[1, 2, 3]));
}
