use lithium::theme::{color_id, element_kind, style_variant, ColorId, ElementKind, StyleVariant};

// Check that identifiers are always generated in the same way.
#[test]
fn ids_stay_the_same() {
    assert_eq!(color_id("test"), ColorId(15669914510866457799));
    assert_eq!(element_kind("test"), ElementKind(14929189791165124317));
    assert_eq!(style_variant("test"), StyleVariant(15111611029265304875));
}

#[test]
fn ids_differ_between_kinds() {
    // The domain-separation key must take part in the digest: the same name
    // under different key kinds gives different identifiers.
    assert_ne!(color_id("test").0, element_kind("test").0);
    assert_ne!(element_kind("test").0, style_variant("test").0);
    assert_ne!(color_id("a").0, color_id("b").0);
}
