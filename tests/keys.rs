use file_backed_lfu::traits::Key;

#[test]
fn uuid_keys_are_fresh_and_safe() {
    let a = <uuid::Uuid as Key>::new();
    let b = <uuid::Uuid as Key>::new();
    assert_ne!(a, b);
    let name = a.as_filename();
    assert_eq!(name.len(), 36);
    assert!(!name.contains('/'));
    assert_eq!(name, a.hyphenated().to_string());
}

#[test]
fn uuid_filename_is_hyphenated_lowercase() {
    let u = uuid::Uuid::from_u128(0xa1a2a3a4b1b2c1c2d1d2d3d4d5d6d7d8);
    assert_eq!(u.as_filename(), "a1a2a3a4-b1b2-c1c2-d1d2-d3d4d5d6d7d8");
}

#[test]
fn nil_uuid_filename() {
    assert_eq!(uuid::Uuid::nil().as_filename(), "00000000-0000-0000-0000-000000000000");
    assert_ne!(
        uuid::Uuid::from_u128(1).as_filename(),
        uuid::Uuid::from_u128(1 << 64).as_filename()
    );
}

#[test]
fn new_uuid_key_is_version_4_rfc4122() {
    let k = <uuid::Uuid as Key>::new();
    assert_eq!(k.get_version_num(), 4);
    assert_eq!(k.get_variant(), uuid::Variant::RFC4122);
    assert_eq!(k.as_u128() & 0xF000C000000000000000, 0x40008000000000000000);
}
