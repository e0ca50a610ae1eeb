use chain_orb::ids::generate_id;
use chain_orb::ids::to_hex;

#[test]
fn hex_rendering_matches_known_values() {
    assert_eq!(to_hex(0), "0");
    assert_eq!(to_hex(10), "a");
    assert_eq!(to_hex(255), "ff");
    assert_eq!(to_hex(0x1a2b3c), "1a2b3c");
    assert_eq!(to_hex(u64::MAX as u128), "ffffffffffffffff");
}

#[test]
fn generated_ids_are_hexadecimal() {
    let id = generate_id();
    assert!(!id.is_empty());
    assert!(id.chars().all(|c| c.is_ascii_hexdigit()));
    assert!(id.chars().all(|c| !c.is_ascii_uppercase()));
}
