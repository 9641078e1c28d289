use ratman_core::endpoint::{size_commonbuf_t, DriverMap};
use ratman_core::types::{Address, Ident32, Neighbour, Recipient};

#[test]
fn address_hex() {
    let mut b = [0u8; 32];
    b[0] = 0xab;
    b[31] = 0x0f;
    let h = Address(b).to_hex();
    assert_eq!(h.len(), 64);
    assert!(h.starts_with("ab00"));
    assert!(h.ends_with("000f"));
    assert_eq!(Ident32([0x12; 32]).to_hex(), "12".repeat(32));
}

#[test]
fn equality_is_bytewise() {
    assert!(Address([1; 32]) == Address([1; 32]));
    let mut b = [1u8; 32];
    b[17] = 2;
    assert!(Address([1; 32]) != Address(b));
    assert!(Recipient::Target(Address([1; 32])) != Recipient::Namespace(Address([1; 32])));
    assert!(Recipient::Broadcast == Recipient::Broadcast);
    assert!(Recipient::Broadcast.is_flood());
    assert!(!Recipient::Target(Address(b)).is_flood());
}

#[test]
fn random_identifiers_differ() {
    assert!(Ident32::random() != Ident32::random());
    assert!(Address::random() != Address::random());
}

#[test]
fn neighbour_variants() {
    assert_eq!(Neighbour::FloodExcept(3), Neighbour::FloodExcept(3));
    assert_ne!(Neighbour::Single(1), Neighbour::Drop);
}

#[test]
fn commonbuf_sizes() {
    assert_eq!(size_commonbuf_t::<{ 1024 * 1024 }>(), 8);
    assert_eq!(size_commonbuf_t::<1024>(), 8192);
}

#[test]
fn driver_ids_stay_valid() {
    let mut m: DriverMap<&str> = DriverMap::new();
    assert_eq!(m.add("mem"), 0);
    assert_eq!(m.add("inet"), 1);
    assert_eq!(m.add("lora"), 2);
    m.remove(1);
    assert_eq!(*m.get(2), "lora");
    assert_eq!(m.get_ids(), vec![0, 2]);
    assert_eq!(m.add("lan"), 3);
    assert_eq!(m.get_ids(), vec![0, 2, 3]);
}
