use yabuil::registry::{DynamicAttribute, LayoutRegistry, Registry, RegistryError, Resolved};

#[test]
fn strict_registry_rejects_unknown_names() {
    let mut r: Registry<u8> = Registry::new(false);
    assert_eq!(r.register("Color".to_string(), 1), 0);
    assert_eq!(r.register("Size".to_string(), 2), 1);
    assert_eq!(r.resolve("Color"), Ok(Resolved::Registered(0)));
    assert_eq!(r.resolve("Size"), Ok(Resolved::Registered(1)));
    assert_eq!(r.resolve("Glow"), Err(RegistryError::UnknownName));
}

#[test]
fn lenient_registry_passes_unknown_names_through() {
    let mut r: Registry<u8> = Registry::new(true);
    r.register("Color".to_string(), 1);
    assert_eq!(r.resolve("Glow"), Ok(Resolved::Unregistered));
    assert_eq!(r.resolve("Color"), Ok(Resolved::Registered(0)));
}

#[test]
fn registering_again_overwrites() {
    let mut r: Registry<u8> = Registry::new(false);
    r.register("Color".to_string(), 1);
    r.register("Size".to_string(), 2);
    assert_eq!(r.register("Color".to_string(), 9), 0);
    assert_eq!(r.len(), 2);
    assert_eq!(*r.decoder(0), 9);
    assert_eq!(*r.decoder(1), 2);
}

#[test]
fn layout_registry_keeps_two_registries() {
    let mut r: LayoutRegistry<u8, u16> = LayoutRegistry::new(false);
    assert_eq!(r.register_attribute("Hover".to_string(), 3), 0);
    assert_eq!(r.register_animation("Position".to_string(), 4), 0);
    assert_eq!(r.register_animation("Size".to_string(), 5), 1);
    assert_eq!(r.attributes.len(), 1);
    assert_eq!(r.animations.len(), 2);
    assert_eq!(r.animations.resolve("Hover"), Err(RegistryError::UnknownName));
}

#[test]
fn attribute_accessors() {
    let a = DynamicAttribute::new("Hover".to_string(), "attrs::Hover".to_string(), 12, ());
    assert_eq!(a.name(), "Hover");
    assert_eq!(a.attribute_type_path(), "attrs::Hover");
    assert_eq!(a.attribute_type_id(), 12);
}
