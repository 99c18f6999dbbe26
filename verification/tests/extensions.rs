use ron_core::extensions::Extensions;
use ron_core::parse::Bytes;

fn roundtrip_extensions(ext: Extensions) {
    let v = ext.serialize();
    let mut b = Bytes::new(&v);
    let ext2 = Extensions::deserialize(&mut b).unwrap();
    assert_eq!(ext, ext2);
}

#[test]
fn test_extension_serde() {
    roundtrip_extensions(Extensions::default());
    roundtrip_extensions(Extensions::unwrap_newtypes());
    roundtrip_extensions(Extensions::implicit_some());
    roundtrip_extensions(Extensions::unwrap_variant_newtypes());
    roundtrip_extensions(Extensions::unwrap_newtypes().union(Extensions::implicit_some()));
    roundtrip_extensions(Extensions::unwrap_newtypes().union(Extensions::unwrap_variant_newtypes()));
    roundtrip_extensions(Extensions::implicit_some().union(Extensions::unwrap_variant_newtypes()));
    roundtrip_extensions(
        Extensions::unwrap_newtypes()
            .union(Extensions::implicit_some())
            .union(Extensions::unwrap_variant_newtypes()),
    );
}

#[test]
fn test_from_ident_canonical_names() {
    assert_eq!(
        Extensions::from_ident("unwrap_newtypes"),
        Some(Extensions::unwrap_newtypes())
    );
    assert_eq!(
        Extensions::from_ident("implicit_some"),
        Some(Extensions::implicit_some())
    );
    assert_eq!(
        Extensions::from_ident("unwrap_variant_newtypes"),
        Some(Extensions::unwrap_variant_newtypes())
    );
}

#[test]
fn test_from_ident_unknown_names() {
    assert_eq!(Extensions::from_ident(""), None);
    assert_eq!(Extensions::from_ident("UNWRAP_NEWTYPES"), None);
    assert_eq!(Extensions::from_ident("Implicit_Some"), None);
    assert_eq!(Extensions::from_ident("implicit_som"), None);
    assert_eq!(Extensions::from_ident("implicit_somee"), None);
    assert_eq!(Extensions::from_ident("unwrap newtypes"), None);
}

#[test]
fn test_flag_set_operations() {
    let both = Extensions::unwrap_newtypes().union(Extensions::implicit_some());
    assert_eq!(both.bits(), 3);
    assert!(both.contains(Extensions::unwrap_newtypes()));
    assert!(both.contains(Extensions::implicit_some()));
    assert!(!both.contains(Extensions::unwrap_variant_newtypes()));
    assert_eq!(
        both.intersection(Extensions::implicit_some()),
        Extensions::implicit_some()
    );
    assert_eq!(Extensions::default(), Extensions::empty());
    assert_eq!(Extensions::from_bits(5), Some(
        Extensions::unwrap_newtypes().union(Extensions::unwrap_variant_newtypes())
    ));
    assert_eq!(Extensions::from_bits(8), None);
}
