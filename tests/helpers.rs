use yabuil::helpers::{HashMapSeedPassthrough, VecSeedPassthrough};

#[test]
fn seeds_are_carried() {
    let m: HashMapSeedPassthrough<'_, String, u32> = HashMapSeedPassthrough::new(5);
    assert_eq!(*m.seed(), 5);
    let v: VecSeedPassthrough<'_, &str> = VecSeedPassthrough::new("x");
    assert_eq!(*v.seed(), "x");
}
